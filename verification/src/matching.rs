//! Race and runner matching across books.
//!
//! A race is matched on its normalized track, its date and its race number;
//! runner names are normalized (case, punctuation, whitespace) before they are
//! compared.

use vstd::prelude::*;

use crate::dates::{date_text, lemma_date_text_chars, lemma_date_text_injective, valid_date, RaceDate};
use crate::text::{
    ascii_upper, chars_of, decimal, decimal_text, is_ascii_alnum, is_ascii_alphanumeric,
    is_ascii_char, is_ascii_lower, is_ascii_text, is_digit_char, is_white_space,
    lemma_decimal_injective, trim, trim_end, trim_start, trimmed, to_uppercase, uppercase,
    white_space,
};
use crate::types::RaceKey;

verus! {

/// The ASCII letters and digits of `s`, in order.
pub open spec fn alnum_only(s: Seq<char>) -> Seq<char>
    decreases s.len(),
{
    if s.len() == 0 {
        Seq::empty()
    } else if is_ascii_alnum(s.last()) {
        alnum_only(s.drop_last()).push(s.last())
    } else {
        alnum_only(s.drop_last())
    }
}

/// The normalized form of a track code or name: the ASCII letters and digits
/// of its trimmed, upper-cased text.
pub open spec fn track_key(track: Seq<char>) -> Seq<char> {
    alnum_only(uppercase(trimmed(track)))
}

/// Characters that separate the words of a runner name.
pub open spec fn is_name_separator(c: char) -> bool {
    white_space(c) || c == '-' || c == '.'
}

/// One step of reading an upper-cased runner name: letters and digits are kept,
/// apostrophes are dropped, a run of separators becomes one space (never at the
/// start), and any other character is dropped. The flag records whether the
/// text read so far ends in a space that a separator put there.
spec fn runner_step(state: (Seq<char>, bool), c: char) -> (Seq<char>, bool) {
    if is_ascii_alnum(c) {
        (state.0.push(c), false)
    } else if c == '\'' {
        state
    } else if is_name_separator(c) {
        if !state.1 && state.0.len() > 0 {
            (state.0.push(' '), true)
        } else {
            state
        }
    } else {
        state
    }
}

/// The result of reading all of `cs` with `runner_step`.
spec fn runner_scan(cs: Seq<char>) -> (Seq<char>, bool)
    decreases cs.len(),
{
    if cs.len() == 0 {
        (Seq::empty(), false)
    } else {
        runner_step(runner_scan(cs.drop_last()), cs.last())
    }
}

/// The text of `cs` with each separator turned into a space and every other
/// character that is not an ASCII letter or digit (apostrophes among them)
/// left out.
pub open spec fn spaced(cs: Seq<char>) -> Seq<char>
    decreases cs.len(),
{
    if cs.len() == 0 {
        Seq::empty()
    } else if is_ascii_alnum(cs.last()) {
        spaced(cs.drop_last()).push(cs.last())
    } else if is_name_separator(cs.last()) {
        spaced(cs.drop_last()).push(' ')
    } else {
        spaced(cs.drop_last())
    }
}

/// The words of `t`: its maximal runs of characters other than the space, in
/// order.
pub open spec fn words(t: Seq<char>) -> Seq<Seq<char>>
    decreases t.len(),
{
    if t.len() == 0 {
        Seq::empty()
    } else if t.last() == ' ' {
        words(t.drop_last())
    } else if t.len() >= 2 && t[t.len() - 2] != ' ' {
        let w = words(t.drop_last());
        w.update(w.len() - 1, w.last().push(t.last()))
    } else {
        words(t.drop_last()).push(seq![t.last()])
    }
}

/// Words joined by single spaces.
pub open spec fn join_words(ws: Seq<Seq<char>>) -> Seq<char>
    decreases ws.len(),
{
    if ws.len() == 0 {
        Seq::empty()
    } else if ws.len() == 1 {
        ws[0]
    } else {
        join_words(ws.drop_last()) + seq![' '] + ws.last()
    }
}

/// The normalized form of a runner or outcome name: the words of its trimmed,
/// upper-cased text, joined by single spaces, where words are separated by
/// whitespace, `-` and `.`, and consist of the ASCII letters and digits between
/// separators (apostrophes and other punctuation are left out).
pub open spec fn runner_key(name: Seq<char>) -> Seq<char> {
    join_words(words(spaced(uppercase(trimmed(name)))))
}

/// Words of ASCII letters and digits separated by single spaces, with no space
/// at either end.
pub open spec fn is_word_text(s: Seq<char>) -> bool {
    &&& forall|i: int| 0 <= i < s.len() ==> is_ascii_alnum(#[trigger] s[i]) || s[i] == ' '
    &&& s.len() > 0 ==> s[0] != ' ' && s.last() != ' '
    &&& forall|i: int| 0 <= i < s.len() - 1 ==> !(#[trigger] s[i] == ' ' && s[i + 1] == ' ')
}

/// What `runner_scan` keeps between steps.
pub open spec fn scan_state_ok(state: (Seq<char>, bool)) -> bool {
    let s = state.0;
    &&& forall|i: int| 0 <= i < s.len() ==> is_ascii_alnum(#[trigger] s[i]) || s[i] == ' '
    &&& s.len() > 0 ==> s[0] != ' '
    &&& forall|i: int| 0 <= i < s.len() - 1 ==> !(#[trigger] s[i] == ' ' && s[i + 1] == ' ')
    &&& state.1 <==> (s.len() > 0 && s.last() == ' ')
}

proof fn lemma_runner_scan_ok(cs: Seq<char>)
    ensures
        scan_state_ok(runner_scan(cs)),
    decreases cs.len(),
{
    if cs.len() > 0 {
        lemma_runner_scan_ok(cs.drop_last());
        let prev = runner_scan(cs.drop_last());
        let next = runner_scan(cs);
        assert forall|i: int| 0 <= i < next.0.len() - 1 implies !(#[trigger] next.0[i] == ' '
            && next.0[i + 1] == ' ') by {
            if i < prev.0.len() - 1 {
                assert(next.0[i] == prev.0[i] && next.0[i + 1] == prev.0[i + 1]);
            }
        }
    }
}

/// Every word is non-empty and holds no space.
spec fn proper_words(ws: Seq<Seq<char>>) -> bool {
    forall|j: int|
        0 <= j < ws.len() ==> (#[trigger] ws[j]).len() > 0 && forall|k: int|
            0 <= k < ws[j].len() ==> ws[j][k] != ' '
}

proof fn lemma_words_proper(t: Seq<char>)
    ensures
        proper_words(words(t)),
        t.len() > 0 && t.last() != ' ' ==> words(t).len() > 0,
    decreases t.len(),
{
    if t.len() > 0 {
        lemma_words_proper(t.drop_last());
        let w = words(t.drop_last());
        if t.last() != ' ' && t.len() >= 2 && t[t.len() - 2] != ' ' {
            assert(t.drop_last().last() == t[t.len() - 2]);
            let nw = words(t);
            assert forall|j: int| 0 <= j < nw.len() implies (#[trigger] nw[j]).len() > 0 && forall|
                k: int,
            | 0 <= k < nw[j].len() ==> nw[j][k] != ' ' by {
                if j == w.len() - 1 {
                    assert forall|k: int| 0 <= k < nw[j].len() implies nw[j][k] != ' ' by {
                        if k < w.last().len() {
                            assert(nw[j][k] == w[j][k]);
                        }
                    }
                }
            }
        } else if t.last() != ' ' {
            let nw = words(t);
            assert forall|j: int| 0 <= j < nw.len() implies (#[trigger] nw[j]).len() > 0 && forall|
                k: int,
            | 0 <= k < nw[j].len() ==> nw[j][k] != ' ' by {
                if j < w.len() {
                    assert(nw[j] == w[j]);
                }
            }
        }
    }
}

proof fn lemma_join_words(ws: Seq<Seq<char>>)
    requires
        proper_words(ws),
    ensures
        join_words(ws).len() > 0 <==> ws.len() > 0,
        ws.len() > 0 ==> join_words(ws).last() == ws.last().last(),
    decreases ws.len(),
{
    if ws.len() > 1 {
        assert(proper_words(ws.drop_last())) by {
            assert forall|j: int| 0 <= j < ws.drop_last().len() implies (
            #[trigger] ws.drop_last()[j]).len() > 0 && forall|k: int|
                0 <= k < ws.drop_last()[j].len() ==> ws.drop_last()[j][k] != ' ' by {
                assert(ws.drop_last()[j] == ws[j]);
            }
        }
        lemma_join_words(ws.drop_last());
    }
}

proof fn lemma_join_extend(ws: Seq<Seq<char>>, c: char)
    requires
        ws.len() > 0,
    ensures
        join_words(ws.update(ws.len() - 1, ws.last().push(c))) == join_words(ws).push(c),
{
    let nw = ws.update(ws.len() - 1, ws.last().push(c));
    if ws.len() == 1 {
    } else {
        assert(nw.drop_last() =~= ws.drop_last());
        assert(join_words(nw) =~= join_words(ws).push(c));
    }
}

/// Scanning keeps exactly the joined words of the spaced text, followed by a
/// space when a separator came after the last word.
proof fn lemma_scan_is_words(cs: Seq<char>)
    ensures
        runner_scan(cs).0 == join_words(words(spaced(cs))) + (if runner_scan(cs).1 {
            seq![' ']
        } else {
            Seq::<char>::empty()
        }),
        runner_scan(cs).1 <==> (words(spaced(cs)).len() > 0 && spaced(cs).last() == ' '),
        spaced(cs).len() > 0 && spaced(cs).last() != ' ' ==> words(spaced(cs)).len() > 0,
    decreases cs.len(),
{
    if cs.len() > 0 {
        let d = cs.drop_last();
        lemma_scan_is_words(d);
        let c = cs.last();
        let t = spaced(d);
        let ws = words(t);
        let st = runner_scan(d);
        lemma_words_proper(t);
        lemma_join_words(ws);
        if is_ascii_alnum(c) {
            let t2 = t.push(c);
            assert(t2.drop_last() =~= t);
            if st.1 {
                assert(t2[t2.len() - 2] == ' ');
                assert(words(t2) == ws.push(seq![c]));
                assert(ws.push(seq![c]).drop_last() =~= ws);
                assert(join_words(ws.push(seq![c])) =~= join_words(ws) + seq![' '] + seq![c]);
                assert(st.0.push(c) =~= join_words(words(t2)));
            } else if t.len() > 0 && t.last() != ' ' {
                assert(t2[t2.len() - 2] == t.last());
                lemma_join_extend(ws, c);
                assert(st.0.push(c) =~= join_words(words(t2)));
            } else {
                assert(ws.len() == 0) by {
                    if t.len() > 0 {
                        assert(t.last() == ' ');
                    }
                }
                assert(words(t2) =~= seq![seq![c]]);
                assert(st.0.push(c) =~= join_words(words(t2)));
            }
        } else if is_name_separator(c) {
            let t2 = t.push(' ');
            assert(t2.drop_last() =~= t);
            assert(words(t2) == ws);
            if !st.1 && st.0.len() > 0 {
                assert(st.0 == join_words(ws));
            } else if !st.1 {
                assert(st.0 =~= join_words(ws) + Seq::<char>::empty());
            }
        }
    }
}

/// Trimming the scanned text gives the joined words.
proof fn lemma_scanned_key(cs: Seq<char>)
    ensures
        trimmed(runner_scan(cs).0) == join_words(words(spaced(cs))),
{
    lemma_scan_is_words(cs);
    lemma_runner_scan_ok(cs);
    let st = runner_scan(cs);
    lemma_trim_scanned(st.0);
    let ws = words(spaced(cs));
    lemma_words_proper(spaced(cs));
    lemma_join_words(ws);
    if st.1 {
        assert(st.0.drop_last() =~= join_words(ws));
    } else {
        assert(st.0 =~= join_words(ws));
        if st.0.len() > 0 {
            assert(ws.last().len() > 0);
            assert(st.0.last() != ' ');
        }
    }
}

/// Trimming a scanned runner name only drops a final space.
proof fn lemma_trim_scanned(s: Seq<char>)
    requires
        forall|i: int| 0 <= i < s.len() ==> is_ascii_alnum(#[trigger] s[i]) || s[i] == ' ',
        s.len() > 0 ==> s[0] != ' ',
        forall|i: int| 0 <= i < s.len() - 1 ==> !(#[trigger] s[i] == ' ' && s[i + 1] == ' '),
    ensures
        trimmed(s) == (if s.len() > 0 && s.last() == ' ' { s.drop_last() } else { s }),
        is_word_text(trimmed(s)),
{
    if s.len() > 0 {
        assert(is_ascii_alnum(s[0]));
        assert(trim_start(s) == s);
        if s.last() == ' ' {
            assert(s.len() >= 2);
            assert(is_ascii_alnum(s[s.len() - 2]));
            let d = s.drop_last();
            assert(d.last() == s[s.len() - 2]);
            assert(trim_end(d) == d);
        } else {
            assert(is_ascii_alnum(s.last()));
        }
    } else {
        assert(trim_start(s) == s);
    }
}

/// Normalize a track code or name for matching: trim it, upper-case it and keep
/// only its ASCII letters and digits.
pub fn normalize_track(track: &str) -> (r: String)
    ensures
        r@ == track_key(track@),
        forall|i: int| 0 <= i < r@.len() ==> is_ascii_alnum(#[trigger] r@[i]),
{
    let upper = to_uppercase(trim(track));
    let cs = chars_of(upper.as_str());
    let mut out = String::new();
    let mut i: usize = 0;
    while i < cs.len()
        invariant
            i <= cs@.len(),
            cs@ == uppercase(trimmed(track@)),
            out@ == alnum_only(cs@.take(i as int)),
            forall|k: int| 0 <= k < out@.len() ==> is_ascii_alnum(#[trigger] out@[k]),
        decreases cs.len() - i,
    {
        let c = cs[i];
        assert(cs@.take(i + 1).drop_last() =~= cs@.take(i as int));
        if is_ascii_alphanumeric(c) {
            out.push(c);
        }
        i = i + 1;
    }
    assert(cs@.take(cs@.len() as int) =~= cs@);
    out
}

/// Normalize a runner or outcome name for matching across books: trim and
/// upper-case it, keep ASCII letters and digits, drop apostrophes
/// (`Bay's` becomes `BAYS`), turn each run of whitespace, `-` and `.` into a
/// single space, and drop all other punctuation.
pub fn normalize_runner(name: &str) -> (r: String)
    ensures
        r@ == runner_key(name@),
        is_word_text(r@),
{
    let upper = to_uppercase(trim(name));
    let cs = chars_of(upper.as_str());
    let mut out = String::new();
    let mut prev_space = false;
    let mut i: usize = 0;
    while i < cs.len()
        invariant
            i <= cs@.len(),
            cs@ == uppercase(trimmed(name@)),
            (out@, prev_space) == runner_scan(cs@.take(i as int)),
        decreases cs.len() - i,
    {
        let c = cs[i];
        assert(cs@.take(i + 1).drop_last() =~= cs@.take(i as int));
        if is_ascii_alphanumeric(c) {
            out.push(c);
            prev_space = false;
        } else if c == '\'' {
        } else if is_white_space(c) || c == '-' || c == '.' {
            if !prev_space && !out.as_str().is_empty() {
                out.push(' ');
                prev_space = true;
            }
        }
        i = i + 1;
    }
    assert(cs@.take(cs@.len() as int) =~= cs@);
    proof {
        lemma_runner_scan_ok(cs@);
        lemma_trim_scanned(out@);
        lemma_scanned_key(cs@);
    }
    let t = trim(out.as_str());
    String::from_str(t)
}

/// The matching key of a race: its normalized track, its date and its race
/// number, joined by `|`.
pub open spec fn race_key(race: RaceKey) -> Seq<char> {
    track_key(race.track@) + seq!['|'] + date_text(race.date@) + seq!['|'] + decimal(
        race.race_number as nat,
        1,
    )
}

/// Canonical race key used to group quotes of one race across books.
pub fn canonical_race_key(race: &RaceKey) -> (r: String)
    ensures
        r@ == race_key(*race),
        valid_date(race.date@.0, race.date@.1, race.date@.2),
{
    let mut key = normalize_track(race.track.as_str());
    key.append("|");
    let date = race.date.to_string();
    key.append(date.as_str());
    key.append("|");
    let number = decimal_text(race.race_number);
    key.append(number.as_str());
    proof {
        reveal_strlit("|");
    }
    key
}

/// The elements of `s` without repeats, in the order they first appear.
pub open spec fn first_occurrences<A>(s: Seq<A>) -> Seq<A>
    decreases s.len(),
{
    if s.len() == 0 {
        Seq::empty()
    } else {
        let p = first_occurrences(s.drop_last());
        if p.contains(s.last()) {
            p
        } else {
            p.push(s.last())
        }
    }
}

/// `first_occurrences` holds each element of `s` once.
pub proof fn lemma_first_occurrences<A>(s: Seq<A>)
    ensures
        forall|x: A| first_occurrences(s).contains(x) <==> s.contains(x),
        forall|a: int, b: int|
            0 <= a < b < first_occurrences(s).len() ==> first_occurrences(s)[a]
                != first_occurrences(s)[b],
    decreases s.len(),
{
    if s.len() > 0 {
        let d = s.drop_last();
        lemma_first_occurrences(d);
        let p = first_occurrences(d);
        let f = first_occurrences(s);
        assert forall|x: A| f.contains(x) <==> s.contains(x) by {
            if s.contains(x) {
                let i = choose|i: int| 0 <= i < s.len() && s[i] == x;
                if i < d.len() {
                    assert(d[i] == x);
                    assert(d.contains(x));
                    assert(p.contains(x));
                    if !p.contains(s.last()) {
                        let k = choose|k: int| 0 <= k < p.len() && p[k] == x;
                        assert(f[k] == x);
                    }
                } else {
                    if !p.contains(s.last()) {
                        assert(f[p.len() as int] == x);
                    }
                }
            }
            if f.contains(x) {
                let k = choose|k: int| 0 <= k < f.len() && f[k] == x;
                if k < p.len() {
                    assert(p[k] == x);
                    assert(d.contains(x));
                    let i = choose|i: int| 0 <= i < d.len() && d[i] == x;
                    assert(s[i] == x);
                } else {
                    assert(s[s.len() - 1] == x);
                }
            }
        }
    }
}

/// The matching keys of a sequence of races.
pub open spec fn race_keys(races: Seq<RaceKey>) -> Seq<Seq<char>> {
    races.map_values(|r: RaceKey| race_key(r))
}

/// The items of `items` whose key in `keys` (the sequence of the same length
/// that gives each item's key) is `k`, in order.
pub open spec fn items_under<T>(items: Seq<T>, keys: Seq<Seq<char>>, k: Seq<char>) -> Seq<T>
    decreases items.len(),
{
    if items.len() == 0 {
        Seq::empty()
    } else if keys[items.len() - 1] == k {
        items_under(items.drop_last(), keys, k).push(items.last())
    } else {
        items_under(items.drop_last(), keys, k)
    }
}

/// `groups` holds one group per key of `keys`, in the order the keys first
/// appear: the key and the items with that key, in order.
pub open spec fn groups_of<T>(
    items: Seq<T>,
    keys: Seq<Seq<char>>,
    groups: Seq<(String, Vec<T>)>,
) -> bool {
    let ks = first_occurrences(keys);
    &&& groups.len() == ks.len()
    &&& forall|j: int|
        0 <= j < groups.len() ==> {
            &&& (#[trigger] groups[j]).0@ == ks[j]
            &&& groups[j].1@ == items_under(items, keys, ks[j])
        }
}

/// Group items by canonical race key. The groups come in the order their keys
/// first appear, and each holds its items in the order they came.
pub fn group_by_race<T, F: Fn(&T) -> RaceKey>(items: Vec<T>, key_fn: F) -> (groups: Vec<(String, Vec<T>)>)
    requires
        forall|x: &T| #[trigger] key_fn.requires((x,)),
    ensures
        exists|races: Seq<RaceKey>|
            {
                &&& races.len() == items@.len()
                &&& forall|i: int| 0 <= i < races.len() ==> key_fn.ensures((&items@[i],), #[trigger] races[i])
                &&& groups_of(items@, race_keys(races), groups@)
            },
{
    let ghost all = items@;
    let mut keys: Vec<String> = Vec::new();
    let ghost mut races: Seq<RaceKey> = Seq::empty();
    let mut i: usize = 0;
    while i < items.len()
        invariant
            i <= items@.len(),
            items@ == all,
            forall|x: &T| #[trigger] key_fn.requires((x,)),
            races.len() == i,
            keys@.len() == i,
            forall|k: int| 0 <= k < i ==> (#[trigger] keys@[k])@ == race_key(races[k]),
            forall|k: int| 0 <= k < i ==> key_fn.ensures((&all[k],), #[trigger] races[k]),
        decreases items.len() - i,
    {
        let r = key_fn(&items[i]);
        let k = canonical_race_key(&r);
        keys.push(k);
        proof {
            races = races.push(r);
        }
        i = i + 1;
    }
    let ghost ks = race_keys(races);
    assert forall|k: int| 0 <= k < keys@.len() implies (#[trigger] keys@[k])@ == ks[k] by {}
    let mut groups: Vec<(String, Vec<T>)> = Vec::new();
    let mut m: usize = 0;
    let total = items.len();
    for x in it: items.into_iter()
        invariant
            it.seq() == all,
            all.len() == total,
            m == it.index(),
            m <= all.len(),
            keys@.len() == all.len(),
            ks.len() == all.len(),
            forall|k: int| 0 <= k < keys@.len() ==> (#[trigger] keys@[k])@ == ks[k],
            groups@.len() == first_occurrences(ks.take(m as int)).len(),
            forall|j: int|
                0 <= j < groups@.len() ==> {
                    &&& (#[trigger] groups@[j]).0@ == first_occurrences(ks.take(m as int))[j]
                    &&& groups@[j].1@ == items_under(
                        all.take(m as int),
                        ks,
                        first_occurrences(ks.take(m as int))[j],
                    )
                },
    {
        let ghost fo = first_occurrences(ks.take(m as int));
        assert(m < all.len());
        proof {
            lemma_first_occurrences(ks.take(m as int));
            assert(ks.take(m + 1).drop_last() =~= ks.take(m as int));
            assert(all.take(m + 1).drop_last() =~= all.take(m as int));
        }
        let mut j: usize = 0;
        while j < groups.len() && !(groups[j].0 == keys[m])
            invariant
                j <= groups@.len(),
                m < keys@.len(),
                forall|q: int| 0 <= q < j ==> groups@[q].0@ != keys@[m as int]@,
            decreases groups.len() - j,
        {
            j = j + 1;
        }
        if j < groups.len() {
            let (k, mut v) = groups.remove(j);
            v.push(x);
            groups.insert(j, (k, v));
            proof {
                assert(fo[j as int] == ks[m as int]);
                assert(fo.contains(ks[m as int]));
                assert(first_occurrences(ks.take(m + 1)) == fo);
                assert forall|q: int| 0 <= q < groups@.len() implies {
                    &&& (#[trigger] groups@[q]).0@ == fo[q]
                    &&& groups@[q].1@ == items_under(all.take(m + 1), ks, fo[q])
                } by {
                    if q != j {
                        assert(fo[q] != fo[j as int]);
                    }
                }
            }
        } else {
            let k = keys[m].clone();
            let mut v: Vec<T> = Vec::new();
            v.push(x);
            groups.push((k, v));
            proof {
                assert forall|q: int| 0 <= q < fo.len() implies #[trigger] fo[q] != ks[m as int] by {
                    assert(groups@[q].0@ == fo[q]);
                }
                assert(!fo.contains(ks[m as int]));
                assert(first_occurrences(ks.take(m + 1)) == fo.push(ks[m as int]));
                lemma_items_under_none(all.take(m as int), ks, ks[m as int]);
                assert(items_under(all.take(m + 1), ks, ks[m as int]) =~= seq![x]);
                assert forall|q: int| 0 <= q < groups@.len() implies {
                    &&& (#[trigger] groups@[q]).0@ == first_occurrences(ks.take(m + 1))[q]
                    &&& groups@[q].1@ == items_under(all.take(m + 1), ks, first_occurrences(ks.take(m + 1))[q])
                } by {
                    if q < fo.len() {
                        assert(fo[q] != ks[m as int]);
                    }
                }
            }
        }
        m = m + 1;
    }
    proof {
        assert(ks.take(all.len() as int) =~= ks);
        assert(all.take(all.len() as int) =~= all);
    }
    groups
}

/// The indices below `n` whose key in `keys` is `k`, in increasing order.
spec fn key_indices(keys: Seq<Seq<char>>, k: Seq<char>, n: int) -> Seq<int>
    decreases n,
{
    if n <= 0 {
        Seq::empty()
    } else if keys[n - 1] == k {
        key_indices(keys, k, n - 1).push(n - 1)
    } else {
        key_indices(keys, k, n - 1)
    }
}

/// The items under key `k` are the items at the indices whose key is `k`.
proof fn lemma_items_under_indices<T>(items: Seq<T>, keys: Seq<Seq<char>>, k: Seq<char>)
    requires
        items.len() <= keys.len(),
    ensures
        ({
            let idx = key_indices(keys, k, items.len() as int);
            let g = items_under(items, keys, k);
            &&& idx.len() == g.len()
            &&& forall|t: int|
                0 <= t < idx.len() ==> 0 <= #[trigger] idx[t] < items.len() && keys[idx[t]] == k
                    && g[t] == items[idx[t]]
            &&& forall|t: int, u: int| 0 <= t < u < idx.len() ==> idx[t] < idx[u]
            &&& forall|i: int|
                0 <= i < items.len() && #[trigger] keys[i] == k ==> exists|t: int|
                    0 <= t < idx.len() && idx[t] == i
        }),
    decreases items.len(),
{
    if items.len() > 0 {
        let n = items.len() as int;
        let d = items.drop_last();
        lemma_items_under_indices(d, keys, k);
        let p = key_indices(keys, k, n - 1);
        let idx = key_indices(keys, k, n);
        let g = items_under(items, keys, k);
        let gd = items_under(d, keys, k);
        assert forall|t: int| 0 <= t < idx.len() implies 0 <= #[trigger] idx[t] < items.len()
            && keys[idx[t]] == k && g[t] == items[idx[t]] by {
            if t < p.len() {
                assert(idx[t] == p[t]);
                assert(g[t] == gd[t]);
                assert(d[p[t]] == items[p[t]]);
            }
        }
        assert forall|i: int| 0 <= i < items.len() && #[trigger] keys[i] == k implies exists|t: int|
            0 <= t < idx.len() && idx[t] == i by {
            if i < n - 1 {
                let t = choose|t: int| 0 <= t < p.len() && p[t] == i;
                assert(idx[t] == i);
            } else {
                assert(idx[p.len() as int] == i);
            }
        }
    }
}

/// Grouping loses no item and invents none: every item's key has a group,
/// no two groups share a key, and each group holds exactly the items with its
/// key, in the order they came.
pub proof fn lemma_groups_partition<T>(
    items: Seq<T>,
    keys: Seq<Seq<char>>,
    groups: Seq<(String, Vec<T>)>,
)
    requires
        items.len() == keys.len(),
        groups_of(items, keys, groups),
    ensures
        forall|i: int|
            0 <= i < items.len() ==> exists|j: int|
                0 <= j < groups.len() && (#[trigger] groups[j]).0@ == #[trigger] keys[i],
        forall|a: int, b: int|
            0 <= a < b < groups.len() ==> (#[trigger] groups[a]).0@ != (#[trigger] groups[b]).0@,
        forall|j: int|
            0 <= j < groups.len() ==> exists|idx: Seq<int>|
                {
                    &&& idx.len() == (#[trigger] groups[j]).1@.len()
                    &&& forall|t: int|
                        0 <= t < idx.len() ==> 0 <= #[trigger] idx[t] < items.len() && keys[idx[t]]
                            == groups[j].0@ && groups[j].1@[t] == items[idx[t]]
                    &&& forall|t: int, u: int| 0 <= t < u < idx.len() ==> idx[t] < idx[u]
                    &&& forall|i: int|
                        0 <= i < items.len() && keys[i] == groups[j].0@ ==> exists|t: int|
                            0 <= t < idx.len() && idx[t] == i
                },
{
    let ks = first_occurrences(keys);
    lemma_first_occurrences(keys);
    assert forall|i: int| 0 <= i < items.len() implies exists|j: int|
        0 <= j < groups.len() && (#[trigger] groups[j]).0@ == #[trigger] keys[i] by {
        assert(keys.contains(keys[i]));
        let j = choose|j: int| 0 <= j < ks.len() && ks[j] == keys[i];
        assert(groups[j].0@ == keys[i]);
    }
    assert forall|j: int| 0 <= j < groups.len() implies exists|idx: Seq<int>|
        {
            &&& idx.len() == (#[trigger] groups[j]).1@.len()
            &&& forall|t: int|
                0 <= t < idx.len() ==> 0 <= #[trigger] idx[t] < items.len() && keys[idx[t]]
                    == groups[j].0@ && groups[j].1@[t] == items[idx[t]]
            &&& forall|t: int, u: int| 0 <= t < u < idx.len() ==> idx[t] < idx[u]
            &&& forall|i: int|
                0 <= i < items.len() && keys[i] == groups[j].0@ ==> exists|t: int|
                    0 <= t < idx.len() && idx[t] == i
        } by {
        lemma_items_under_indices(items, keys, ks[j]);
        let idx = key_indices(keys, ks[j], items.len() as int);
        assert(groups[j].1@ == items_under(items, keys, ks[j]));
        assert forall|i: int| 0 <= i < items.len() && keys[i] == groups[j].0@ implies exists|t: int|
            0 <= t < idx.len() && idx[t] == i by {
            assert(keys[i] == ks[j]);
        }
    }
}

/// An item whose key differs from every earlier key starts its own group.
proof fn lemma_items_under_none<T>(items: Seq<T>, keys: Seq<Seq<char>>, k: Seq<char>)
    requires
        items.len() <= keys.len(),
        !first_occurrences(keys.take(items.len() as int)).contains(k),
    ensures
        items_under(items, keys, k) == Seq::<T>::empty(),
    decreases items.len(),
{
    if items.len() > 0 {
        let n = items.len() as int;
        lemma_first_occurrences(keys.take(n));
        lemma_first_occurrences(keys.take(n - 1));
        assert(keys.take(n)[n - 1] == keys[n - 1]);
        assert(keys.take(n).contains(keys[n - 1]));
        assert(keys[n - 1] != k);
        assert forall|x: Seq<char>| keys.take(n - 1).contains(x) implies keys.take(n).contains(x) by {
            let i = choose|i: int| 0 <= i < n - 1 && #[trigger] keys.take(n - 1)[i] == x;
            assert(keys.take(n)[i] == x);
        }
        assert(!keys.take(n).contains(k));
        assert(!keys.take(n - 1).contains(k));
        lemma_items_under_none(items.drop_last(), keys, k);
    }
}

proof fn lemma_alnum_only_chars(s: Seq<char>)
    ensures
        forall|i: int| 0 <= i < alnum_only(s).len() ==> is_ascii_alnum(#[trigger] alnum_only(s)[i]),
    decreases s.len(),
{
    if s.len() > 0 {
        lemma_alnum_only_chars(s.drop_last());
        let p = alnum_only(s.drop_last());
        assert forall|i: int| 0 <= i < alnum_only(s).len() implies is_ascii_alnum(
            #[trigger] alnum_only(s)[i],
        ) by {
            if i < p.len() {
                assert(alnum_only(s)[i] == p[i]);
            }
        }
    }
}

/// Two texts without `|`, each followed by `|` and more text, that spell the
/// same text agree in their first parts and in their rests.
proof fn lemma_split_at_bar(x1: Seq<char>, r1: Seq<char>, x2: Seq<char>, r2: Seq<char>)
    requires
        forall|i: int| 0 <= i < x1.len() ==> #[trigger] x1[i] != '|',
        forall|i: int| 0 <= i < x2.len() ==> #[trigger] x2[i] != '|',
        x1 + seq!['|'] + r1 == x2 + seq!['|'] + r2,
    ensures
        x1 == x2,
        r1 == r2,
{
    let s1 = x1 + seq!['|'] + r1;
    let s2 = x2 + seq!['|'] + r2;
    if x1.len() < x2.len() {
        assert(s1[x1.len() as int] == '|');
        assert(s2[x1.len() as int] == x2[x1.len() as int]);
        assert(false);
    } else if x2.len() < x1.len() {
        assert(s2[x2.len() as int] == '|');
        assert(s1[x2.len() as int] == x1[x2.len() as int]);
        assert(false);
    } else {
        assert(x1 =~= s1.subrange(0, x1.len() as int));
        assert(x2 =~= s2.subrange(0, x2.len() as int));
        assert(r1 =~= s1.subrange(x1.len() as int + 1, s1.len() as int));
        assert(r2 =~= s2.subrange(x2.len() as int + 1, s2.len() as int));
    }
}

/// Two races have the same matching key exactly when their normalized tracks,
/// their dates and their race numbers agree.
pub proof fn lemma_race_key_matches(a: RaceKey, b: RaceKey)
    requires
        valid_date(a.date@.0, a.date@.1, a.date@.2),
        valid_date(b.date@.0, b.date@.1, b.date@.2),
    ensures
        race_key(a) == race_key(b) <==> (track_key(a.track@) == track_key(b.track@) && a.date
            == b.date && a.race_number == b.race_number),
{
    if race_key(a) == race_key(b) {
        let ta = track_key(a.track@);
        let tb = track_key(b.track@);
        let da = date_text(a.date@);
        let db = date_text(b.date@);
        let na = decimal(a.race_number as nat, 1);
        let nb = decimal(b.race_number as nat, 1);
        lemma_alnum_only_chars(uppercase(trimmed(a.track@)));
        lemma_alnum_only_chars(uppercase(trimmed(b.track@)));
        assert forall|i: int| 0 <= i < ta.len() implies #[trigger] ta[i] != '|' by {
            assert(is_ascii_alnum(ta[i]));
        }
        assert forall|i: int| 0 <= i < tb.len() implies #[trigger] tb[i] != '|' by {
            assert(is_ascii_alnum(tb[i]));
        }
        assert(race_key(a) =~= ta + seq!['|'] + (da + seq!['|'] + na));
        assert(race_key(b) =~= tb + seq!['|'] + (db + seq!['|'] + nb));
        lemma_split_at_bar(ta, da + seq!['|'] + na, tb, db + seq!['|'] + nb);
        lemma_date_text_chars(a.date@);
        lemma_date_text_chars(b.date@);
        assert forall|i: int| 0 <= i < da.len() implies #[trigger] da[i] != '|' by {
            let c = da[i];
            assert(is_digit_char(c) || c == '-' || c == '+');
        }
        assert forall|i: int| 0 <= i < db.len() implies #[trigger] db[i] != '|' by {
            let c = db[i];
            assert(is_digit_char(c) || c == '-' || c == '+');
        }
        lemma_split_at_bar(da, na, db, nb);
        lemma_date_text_injective(a.date@, b.date@);
        RaceDate::lemma_view_injective(a.date, b.date);
        lemma_decimal_injective(a.race_number as nat, b.race_number as nat, 1);
    }
}

proof fn lemma_trim_start_suffix(s: Seq<char>)
    ensures
        trim_start(s).len() <= s.len(),
        trim_start(s) == s.subrange(s.len() - trim_start(s).len(), s.len() as int),
        forall|i: int| 0 <= i < s.len() - trim_start(s).len() ==> white_space(#[trigger] s[i]),
    decreases s.len(),
{
    if s.len() > 0 && white_space(s[0]) {
        lemma_trim_start_suffix(s.drop_first());
        assert forall|i: int| 0 <= i < s.len() - trim_start(s).len() implies white_space(
            #[trigger] s[i],
        ) by {
            if i > 0 {
                assert(s[i] == s.drop_first()[i - 1]);
            }
        }
        assert(s.drop_first().subrange(
            s.drop_first().len() - trim_start(s).len(),
            s.drop_first().len() as int,
        ) =~= s.subrange(s.len() - trim_start(s).len(), s.len() as int));
    } else {
        assert(s.subrange(0, s.len() as int) =~= s);
    }
}

proof fn lemma_trim_end_prefix(s: Seq<char>)
    ensures
        trim_end(s).len() <= s.len(),
        trim_end(s) == s.subrange(0, trim_end(s).len() as int),
        forall|i: int| trim_end(s).len() <= i < s.len() ==> white_space(#[trigger] s[i]),
    decreases s.len(),
{
    if s.len() > 0 && white_space(s.last()) {
        lemma_trim_end_prefix(s.drop_last());
        assert forall|i: int| trim_end(s).len() <= i < s.len() implies white_space(
            #[trigger] s[i],
        ) by {
            if i < s.len() - 1 {
                assert(s[i] == s.drop_last()[i]);
            }
        }
        assert(s.drop_last().subrange(0, trim_end(s).len() as int) =~= s.subrange(
            0,
            trim_end(s).len() as int,
        ));
    } else {
        assert(s.subrange(0, s.len() as int) =~= s);
    }
}

/// Trimming keeps text ASCII.
proof fn lemma_trimmed_ascii(s: Seq<char>)
    requires
        is_ascii_text(s),
    ensures
        is_ascii_text(trimmed(s)),
{
    lemma_trim_start_suffix(s);
    let t = trim_start(s);
    lemma_trim_end_prefix(t);
    assert forall|i: int| 0 <= i < trimmed(s).len() implies is_ascii_char(#[trigger] trimmed(s)[i]) by {
        assert(trimmed(s)[i] == t[i]);
        assert(t[i] == s[s.len() - t.len() + i]);
    }
}

/// Upper-casing ASCII text leaves no lower-case letter.
proof fn lemma_upper_ascii(s: Seq<char>)
    requires
        is_ascii_text(s),
    ensures
        is_ascii_text(uppercase(s)),
        forall|i: int| 0 <= i < uppercase(s).len() ==> !is_ascii_lower(#[trigger] uppercase(s)[i]),
{
    assert forall|i: int| 0 <= i < uppercase(s).len() implies is_ascii_char(#[trigger] uppercase(s)[i])
        && !is_ascii_lower(uppercase(s)[i]) by {
        assert(uppercase(s)[i] == ascii_upper(s[i]));
        assert(is_ascii_char(s[i]));
    }
}

/// Text without lower-case letters is its own upper-case form when ASCII.
proof fn lemma_upper_fixed(s: Seq<char>)
    requires
        is_ascii_text(s),
        forall|i: int| 0 <= i < s.len() ==> !is_ascii_lower(#[trigger] s[i]),
    ensures
        uppercase(s) == s,
{
    assert(uppercase(s) =~= s);
}

/// The characters kept by `runner_scan` are spaces or characters of its input.
proof fn lemma_runner_scan_from(cs: Seq<char>)
    ensures
        forall|i: int|
            0 <= i < runner_scan(cs).0.len() ==> #[trigger] runner_scan(cs).0[i] == ' '
                || cs.contains(runner_scan(cs).0[i]),
    decreases cs.len(),
{
    if cs.len() > 0 {
        lemma_runner_scan_from(cs.drop_last());
        let p = runner_scan(cs.drop_last()).0;
        let r = runner_scan(cs).0;
        assert forall|i: int| 0 <= i < r.len() implies #[trigger] r[i] == ' ' || cs.contains(r[i]) by {
            if i < p.len() {
                assert(r[i] == p[i]);
                if p[i] != ' ' {
                    let k = choose|k: int| 0 <= k < cs.drop_last().len() && cs.drop_last()[k] == p[i];
                    assert(cs[k] == p[i]);
                }
            } else {
                assert(cs[cs.len() - 1] == cs.last());
            }
        }
    }
}

/// Scanning normalized words gives them back, with the flag set exactly when
/// they end in a space.
proof fn lemma_runner_scan_words(w: Seq<char>, k: int)
    requires
        0 <= k <= w.len(),
        forall|i: int| 0 <= i < w.len() ==> is_ascii_alnum(#[trigger] w[i]) || w[i] == ' ',
        w.len() > 0 ==> w[0] != ' ',
        forall|i: int| 0 <= i < w.len() - 1 ==> !(#[trigger] w[i] == ' ' && w[i + 1] == ' '),
    ensures
        runner_scan(w.take(k)) == (w.take(k), k > 0 && w[k - 1] == ' '),
    decreases k,
{
    if k > 0 {
        lemma_runner_scan_words(w, k - 1);
        assert(w.take(k).drop_last() =~= w.take(k - 1));
        assert(w.take(k - 1).push(w[k - 1]) =~= w.take(k));
        if w[k - 1] == ' ' {
            assert(k >= 2);
            assert(w[k - 2] != ' ');
        }
    } else {
        assert(w.take(0) =~= Seq::<char>::empty());
    }
}

/// Whether `s` holds no ASCII lower-case letter.
pub open spec fn has_no_ascii_lower(s: Seq<char>) -> bool {
    forall|i: int| 0 <= i < s.len() ==> !is_ascii_lower(#[trigger] s[i])
}

/// Normalizing a runner name twice gives what normalizing it once gives,
/// for every name whose upper-cased text holds no ASCII lower-case letter.
pub proof fn lemma_runner_key_idempotent(name: Seq<char>)
    requires
        has_no_ascii_lower(uppercase(trimmed(name))),
    ensures
        runner_key(runner_key(name)) == runner_key(name),
{
    let up = uppercase(trimmed(name));
    lemma_scanned_key(up);
    lemma_runner_scan_ok(up);
    let sc = runner_scan(up).0;
    lemma_trim_scanned(sc);
    let w = runner_key(name);
    lemma_runner_scan_from(up);
    lemma_trim_end_prefix(sc);
    assert(trim_start(sc) == sc) by {
        if sc.len() > 0 {
            assert(is_ascii_alnum(sc[0]));
        }
    }
    assert forall|i: int| 0 <= i < w.len() implies is_ascii_char(#[trigger] w[i]) && !is_ascii_lower(w[i]) by {
        assert(w[i] == sc[i]);
        if sc[i] != ' ' {
            let k = choose|k: int| 0 <= k < up.len() && up[k] == sc[i];
            assert(!is_ascii_lower(up[k]));
            assert(is_ascii_alnum(sc[i]));
        }
    }
    // `w` is already trimmed and upper-case, and scanning gives it back.
    assert(trim_start(w) == w) by {
        if w.len() > 0 {
            assert(is_ascii_alnum(w[0]));
        }
    }
    assert(trim_end(w) == w) by {
        if w.len() > 0 {
            assert(is_ascii_alnum(w.last()));
        }
    }
    lemma_upper_fixed(w);
    lemma_runner_scan_words(w, w.len() as int);
    assert(w.take(w.len() as int) =~= w);
    lemma_scanned_key(w);
}

/// Normalizing an ASCII runner name twice gives what normalizing it once
/// gives.
pub proof fn lemma_runner_key_idempotent_ascii(name: Seq<char>)
    requires
        is_ascii_text(name),
    ensures
        runner_key(runner_key(name)) == runner_key(name),
{
    lemma_trimmed_ascii(name);
    lemma_upper_ascii(trimmed(name));
    lemma_runner_key_idempotent(name);
}

/// Normalizing a track twice gives what normalizing it once gives, for every
/// track whose upper-cased text holds no ASCII lower-case letter.
pub proof fn lemma_track_key_idempotent(track: Seq<char>)
    requires
        has_no_ascii_lower(uppercase(trimmed(track))),
    ensures
        track_key(track_key(track)) == track_key(track),
{
    let up = uppercase(trimmed(track));
    let w = track_key(track);
    lemma_alnum_only_chars(up);
    lemma_alnum_only_from(up);
    assert forall|i: int| 0 <= i < w.len() implies is_ascii_char(#[trigger] w[i]) && !is_ascii_lower(w[i]) by {
        let k = choose|k: int| 0 <= k < up.len() && up[k] == w[i];
        assert(!is_ascii_lower(up[k]));
        assert(is_ascii_alnum(w[i]));
    }
    assert(trim_start(w) == w) by {
        if w.len() > 0 {
            assert(is_ascii_alnum(w[0]));
        }
    }
    assert(trim_end(w) == w) by {
        if w.len() > 0 {
            assert(is_ascii_alnum(w.last()));
        }
    }
    lemma_upper_fixed(w);
    lemma_alnum_only_fixed(w);
}

/// Normalizing an ASCII track twice gives what normalizing it once gives.
pub proof fn lemma_track_key_idempotent_ascii(track: Seq<char>)
    requires
        is_ascii_text(track),
    ensures
        track_key(track_key(track)) == track_key(track),
{
    lemma_trimmed_ascii(track);
    lemma_upper_ascii(trimmed(track));
    lemma_track_key_idempotent(track);
}

/// `a` and `b` have the same length and differ at most in the case of ASCII
/// letters.
pub open spec fn same_up_to_case(a: Seq<char>, b: Seq<char>) -> bool {
    &&& a.len() == b.len()
    &&& forall|i: int| 0 <= i < a.len() ==> ascii_upper(#[trigger] a[i]) == ascii_upper(b[i])
}

proof fn lemma_case_pair(c: char, d: char)
    requires
        is_ascii_char(c),
        ascii_upper(c) == ascii_upper(d),
    ensures
        is_ascii_char(d),
        white_space(c) == white_space(d),
{
}

proof fn lemma_trim_start_case(a: Seq<char>, b: Seq<char>)
    requires
        is_ascii_text(a),
        same_up_to_case(a, b),
    ensures
        is_ascii_text(b),
        is_ascii_text(trim_start(a)),
        same_up_to_case(trim_start(a), trim_start(b)),
    decreases a.len(),
{
    assert forall|i: int| 0 <= i < b.len() implies is_ascii_char(#[trigger] b[i]) by {
        lemma_case_pair(a[i], b[i]);
    }
    if a.len() > 0 {
        lemma_case_pair(a[0], b[0]);
        if white_space(a[0]) {
            assert forall|i: int| 0 <= i < a.drop_first().len() implies ascii_upper(
                #[trigger] a.drop_first()[i],
            ) == ascii_upper(b.drop_first()[i]) by {
                assert(a.drop_first()[i] == a[i + 1]);
                assert(b.drop_first()[i] == b[i + 1]);
            }
            assert forall|i: int| 0 <= i < a.drop_first().len() implies is_ascii_char(
                #[trigger] a.drop_first()[i],
            ) by {
                assert(a.drop_first()[i] == a[i + 1]);
            }
            lemma_trim_start_case(a.drop_first(), b.drop_first());
        }
    }
}

proof fn lemma_trim_end_case(a: Seq<char>, b: Seq<char>)
    requires
        is_ascii_text(a),
        same_up_to_case(a, b),
    ensures
        is_ascii_text(trim_end(a)),
        same_up_to_case(trim_end(a), trim_end(b)),
    decreases a.len(),
{
    if a.len() > 0 {
        lemma_case_pair(a.last(), b.last());
        if white_space(a.last()) {
            assert forall|i: int| 0 <= i < a.drop_last().len() implies ascii_upper(
                #[trigger] a.drop_last()[i],
            ) == ascii_upper(b.drop_last()[i]) by {
                assert(a.drop_last()[i] == a[i]);
                assert(b.drop_last()[i] == b[i]);
            }
            assert forall|i: int| 0 <= i < a.drop_last().len() implies is_ascii_char(
                #[trigger] a.drop_last()[i],
            ) by {
                assert(a.drop_last()[i] == a[i]);
            }
            lemma_trim_end_case(a.drop_last(), b.drop_last());
        }
    }
}

/// ASCII names that differ only in letter case normalize alike, as runner
/// names and as tracks.
pub proof fn lemma_case_insensitive(a: Seq<char>, b: Seq<char>)
    requires
        is_ascii_text(a),
        same_up_to_case(a, b),
    ensures
        runner_key(a) == runner_key(b),
        track_key(a) == track_key(b),
{
    lemma_trim_start_case(a, b);
    lemma_trim_end_case(trim_start(a), trim_start(b));
    let ta = trimmed(a);
    let tb = trimmed(b);
    assert forall|i: int| 0 <= i < tb.len() implies is_ascii_char(#[trigger] tb[i]) by {
        lemma_case_pair(ta[i], tb[i]);
    }
    assert(uppercase(ta) =~= uppercase(tb));
}

/// The characters of `alnum_only(s)` come from `s`.
proof fn lemma_alnum_only_from(s: Seq<char>)
    ensures
        forall|i: int| 0 <= i < alnum_only(s).len() ==> s.contains(#[trigger] alnum_only(s)[i]),
    decreases s.len(),
{
    if s.len() > 0 {
        lemma_alnum_only_from(s.drop_last());
        let p = alnum_only(s.drop_last());
        assert forall|i: int| 0 <= i < alnum_only(s).len() implies s.contains(#[trigger] alnum_only(s)[i]) by {
            if i < p.len() {
                assert(alnum_only(s)[i] == p[i]);
                let k = choose|k: int| 0 <= k < s.drop_last().len() && s.drop_last()[k] == p[i];
                assert(s[k] == p[i]);
            } else {
                assert(s[s.len() - 1] == alnum_only(s)[i]);
            }
        }
    }
}

/// Text of letters and digits only is kept whole by `alnum_only`.
proof fn lemma_alnum_only_fixed(s: Seq<char>)
    requires
        forall|i: int| 0 <= i < s.len() ==> is_ascii_alnum(#[trigger] s[i]),
    ensures
        alnum_only(s) == s,
    decreases s.len(),
{
    if s.len() > 0 {
        lemma_alnum_only_fixed(s.drop_last());
        assert(s.drop_last().push(s.last()) =~= s);
    }
}

/// `alnum_only` keeps exactly the characters that are ASCII letters or digits.
proof fn lemma_alnum_only_filter(s: Seq<char>)
    ensures
        alnum_only(s) == s.filter(|c: char| is_ascii_alnum(c)),
    decreases s.len(),
{
    reveal(Seq::filter);
    if s.len() > 0 {
        lemma_alnum_only_filter(s.drop_last());
    }
}

/// `alnum_only` of two texts one after the other.
proof fn lemma_alnum_only_concat(a: Seq<char>, b: Seq<char>)
    ensures
        alnum_only(a + b) == alnum_only(a) + alnum_only(b),
    decreases b.len(),
{
    if b.len() == 0 {
        assert(a + b =~= a);
        assert(alnum_only(a) + alnum_only(b) =~= alnum_only(a));
    } else {
        lemma_alnum_only_concat(a, b.drop_last());
        assert((a + b).drop_last() =~= a + b.drop_last());
        assert((a + b).last() == b.last());
        if is_ascii_alnum(b.last()) {
            assert(alnum_only(a) + alnum_only(b) =~= (alnum_only(a) + alnum_only(b.drop_last())).push(
                b.last(),
            ));
        }
    }
}

/// Whitespace holds no letter or digit.
proof fn lemma_alnum_only_white(s: Seq<char>)
    requires
        forall|i: int| 0 <= i < s.len() ==> white_space(#[trigger] s[i]),
    ensures
        alnum_only(s) == Seq::<char>::empty(),
    decreases s.len(),
{
    if s.len() > 0 {
        assert(white_space(s[s.len() - 1]));
        lemma_alnum_only_white(s.drop_last());
    }
}

/// On ASCII text the normalized track is the letters and digits of the
/// upper-cased text, trimmed or not.
proof fn lemma_track_key_ascii(t: Seq<char>)
    requires
        is_ascii_text(t),
    ensures
        track_key(t) == alnum_only(t.map_values(|c: char| ascii_upper(c))),
{
    lemma_trim_start_suffix(t);
    let u = trim_start(t);
    lemma_trim_end_prefix(u);
    let m = trimmed(t);
    let a = t.subrange(0, t.len() - u.len());
    let b = u.subrange(m.len() as int, u.len() as int);
    assert(t =~= a + m + b);
    lemma_trimmed_ascii(t);
    let up = |c: char| ascii_upper(c);
    assert(uppercase(m) == m.map_values(up));
    assert(t.map_values(up) =~= a.map_values(up) + m.map_values(up) + b.map_values(up));
    assert forall|i: int| 0 <= i < a.map_values(up).len() implies white_space(
        #[trigger] a.map_values(up)[i],
    ) by {
        assert(white_space(t[i]));
    }
    assert forall|i: int| 0 <= i < b.map_values(up).len() implies white_space(
        #[trigger] b.map_values(up)[i],
    ) by {
        assert(b[i] == u[m.len() + i]);
        assert(white_space(u[m.len() + i]));
    }
    lemma_alnum_only_white(a.map_values(up));
    lemma_alnum_only_white(b.map_values(up));
    lemma_alnum_only_concat(a.map_values(up) + m.map_values(up), b.map_values(up));
    lemma_alnum_only_concat(a.map_values(up), m.map_values(up));
    assert(Seq::<char>::empty() + alnum_only(m.map_values(up)) =~= alnum_only(m.map_values(up)));
    assert(alnum_only(m.map_values(up)) + Seq::<char>::empty() =~= alnum_only(m.map_values(up)));
}

/// A normalized track keeps every ASCII letter and digit of the trimmed,
/// upper-cased text, in order, and nothing else.
pub proof fn lemma_track_key_keeps_alnum(t: Seq<char>)
    ensures
        track_key(t) == uppercase(trimmed(t)).filter(|c: char| is_ascii_alnum(c)),
{
    lemma_alnum_only_filter(uppercase(trimmed(t)));
}

/// On ASCII text, normalizing a track name made of two parts gives the two
/// normalized parts one after the other: no letter or digit is dropped or
/// moved because of what stands before or after it.
pub proof fn lemma_track_key_concat(a: Seq<char>, b: Seq<char>)
    requires
        is_ascii_text(a),
        is_ascii_text(b),
    ensures
        track_key(a + b) == track_key(a) + track_key(b),
{
    let up = |c: char| ascii_upper(c);
    assert(is_ascii_text(a + b)) by {
        assert forall|i: int| 0 <= i < (a + b).len() implies is_ascii_char(#[trigger] (a + b)[i]) by {
            if i < a.len() {
                assert((a + b)[i] == a[i]);
            } else {
                assert((a + b)[i] == b[i - a.len()]);
            }
        }
    }
    lemma_track_key_ascii(a + b);
    lemma_track_key_ascii(a);
    lemma_track_key_ascii(b);
    assert((a + b).map_values(up) =~= a.map_values(up) + b.map_values(up));
    lemma_alnum_only_concat(a.map_values(up), b.map_values(up));
}

/// A single ASCII character normalizes, as a track name, to its upper-case
/// form when it is a letter or digit, and to nothing otherwise.
pub proof fn lemma_track_key_char(c: char)
    requires
        is_ascii_char(c),
    ensures
        track_key(seq![c]) == (if is_ascii_alnum(c) {
            seq![ascii_upper(c)]
        } else {
            Seq::<char>::empty()
        }),
{
    let up = |c: char| ascii_upper(c);
    lemma_track_key_ascii(seq![c]);
    let u = ascii_upper(c);
    assert(seq![c].map_values(up) =~= seq![u]);
    assert(seq![u].drop_last() =~= Seq::<char>::empty());
    assert(alnum_only(Seq::<char>::empty()) == Seq::<char>::empty());
    assert(seq![u].last() == u);
    assert(is_ascii_alnum(u) == is_ascii_alnum(c));
    if is_ascii_alnum(c) {
        assert(alnum_only(seq![u]) == alnum_only(seq![u].drop_last()).push(u));
        assert(Seq::<char>::empty().push(u) =~= seq![u]);
    } else {
        assert(alnum_only(seq![u]) == alnum_only(seq![u].drop_last()));
    }
}

/// What a character contributes to the spaced text: itself for an ASCII
/// letter or digit, a space for a separator, nothing otherwise.
spec fn char_class(c: char) -> Option<char> {
    if is_ascii_alnum(c) {
        Some(c)
    } else if is_name_separator(c) {
        Some(' ')
    } else {
        None
    }
}

/// Texts whose characters contribute alike have the same spaced text.
proof fn lemma_spaced_pointwise(x: Seq<char>, y: Seq<char>)
    requires
        x.len() == y.len(),
        forall|i: int| 0 <= i < x.len() ==> char_class(#[trigger] x[i]) == char_class(y[i]),
    ensures
        spaced(x) == spaced(y),
    decreases x.len(),
{
    if x.len() > 0 {
        assert forall|i: int| 0 <= i < x.drop_last().len() implies char_class(
            #[trigger] x.drop_last()[i],
        ) == char_class(y.drop_last()[i]) by {
            assert(x.drop_last()[i] == x[i]);
            assert(y.drop_last()[i] == y[i]);
        }
        lemma_spaced_pointwise(x.drop_last(), y.drop_last());
        assert(char_class(x.last()) == char_class(y.last()));
    }
}

/// The spaced text of a concatenation is the concatenation of spaced texts.
proof fn lemma_spaced_concat(x: Seq<char>, y: Seq<char>)
    ensures
        spaced(x + y) == spaced(x) + spaced(y),
    decreases y.len(),
{
    if y.len() == 0 {
        assert(x + y =~= x);
        assert(spaced(x) + spaced(y) =~= spaced(x));
    } else {
        lemma_spaced_concat(x, y.drop_last());
        assert((x + y).drop_last() =~= x + y.drop_last());
        assert((x + y).last() == y.last());
        if is_ascii_alnum(y.last()) || is_name_separator(y.last()) {
            assert(spaced(x + y) =~= spaced(x) + spaced(y));
        }
    }
}

/// Separators alone give only spaces.
proof fn lemma_spaced_separators(x: Seq<char>)
    requires
        forall|i: int| 0 <= i < x.len() ==> is_name_separator(#[trigger] x[i]),
    ensures
        forall|i: int| 0 <= i < spaced(x).len() ==> #[trigger] spaced(x)[i] == ' ',
    decreases x.len(),
{
    if x.len() > 0 {
        assert forall|i: int| 0 <= i < x.drop_last().len() implies is_name_separator(
            #[trigger] x.drop_last()[i],
        ) by {
            assert(x.drop_last()[i] == x[i]);
        }
        lemma_spaced_separators(x.drop_last());
        assert(is_name_separator(x[x.len() - 1]));
        assert(!is_ascii_alnum(x.last()));
        assert forall|i: int| 0 <= i < spaced(x).len() implies #[trigger] spaced(x)[i] == ' ' by {
            if i < spaced(x.drop_last()).len() {
                assert(spaced(x)[i] == spaced(x.drop_last())[i]);
            }
        }
    }
}

/// Trailing spaces do not change the words.
proof fn lemma_words_trailing_spaces(t: Seq<char>, sp: Seq<char>)
    requires
        forall|i: int| 0 <= i < sp.len() ==> #[trigger] sp[i] == ' ',
    ensures
        words(t + sp) == words(t),
    decreases sp.len(),
{
    if sp.len() == 0 {
        assert(t + sp =~= t);
    } else {
        assert((t + sp).drop_last() =~= t + sp.drop_last());
        assert((t + sp).last() == ' ');
        lemma_words_trailing_spaces(t, sp.drop_last());
    }
}

/// A leading space does not change the words.
proof fn lemma_words_leading_space(t: Seq<char>)
    ensures
        words(seq![' '] + t) == words(t),
    decreases t.len(),
{
    let u = seq![' '] + t;
    if t.len() == 0 {
        assert(u.last() == ' ');
        assert(u.drop_last() =~= Seq::<char>::empty());
        assert(words(u) == words(u.drop_last()));
    } else {
        let d = u.drop_last();
        assert(d =~= seq![' '] + t.drop_last());
        assert(u.last() == t.last());
        lemma_words_leading_space(t.drop_last());
        assert(words(d) == words(t.drop_last()));
        if t.last() == ' ' {
            assert(words(u) == words(d));
        } else if t.len() >= 2 && t[t.len() - 2] != ' ' {
            assert(u[u.len() - 2] == t[t.len() - 2]);
            assert(words(u) == words(d).update(words(d).len() - 1, words(d).last().push(u.last())));
        } else {
            if t.len() >= 2 {
                assert(u[u.len() - 2] == t[t.len() - 2]);
            } else {
                assert(u[u.len() - 2] == ' ');
            }
            assert(words(u) == words(d).push(seq![u.last()]));
        }
    }
}

/// Leading spaces do not change the words.
proof fn lemma_words_leading_spaces(sp: Seq<char>, t: Seq<char>)
    requires
        forall|i: int| 0 <= i < sp.len() ==> #[trigger] sp[i] == ' ',
    ensures
        words(sp + t) == words(t),
    decreases sp.len(),
{
    if sp.len() == 0 {
        assert(sp + t =~= t);
    } else {
        assert(sp + t =~= seq![' '] + (sp.drop_first() + t));
        lemma_words_leading_space(sp.drop_first() + t);
        assert forall|i: int| 0 <= i < sp.drop_first().len() implies #[trigger] sp.drop_first()[i]
            == ' ' by {
            assert(sp.drop_first()[i] == sp[i + 1]);
        }
        lemma_words_leading_spaces(sp.drop_first(), t);
    }
}

/// On ASCII text, upper-casing works character by character.
proof fn lemma_uppercase_ascii_at(s: Seq<char>)
    requires
        is_ascii_text(s),
    ensures
        uppercase(s).len() == s.len(),
        forall|i: int| 0 <= i < s.len() ==> #[trigger] uppercase(s)[i] == ascii_upper(s[i]),
{
}

/// On ASCII names, trimming changes no word: the normalized name is the
/// joined words of the whole upper-cased name.
proof fn lemma_runner_key_untrimmed(s: Seq<char>)
    requires
        is_ascii_text(s),
    ensures
        runner_key(s) == join_words(words(spaced(uppercase(s)))),
{
    lemma_trim_start_suffix(s);
    let ts = trim_start(s);
    lemma_trim_end_prefix(ts);
    let p = s.len() - ts.len();
    let q = p + trim_end(ts).len();
    let n = s.len() as int;
    assert(trimmed(s) =~= s.subrange(p, q));
    lemma_trimmed_ascii(s);
    lemma_uppercase_ascii_at(s);
    lemma_uppercase_ascii_at(trimmed(s));
    let m = uppercase(s);
    let a = m.subrange(0, p);
    let b = m.subrange(p, q);
    let c = m.subrange(q, n);
    assert(uppercase(trimmed(s)) =~= b);
    assert(m =~= a + b + c);
    assert forall|i: int| 0 <= i < a.len() implies is_name_separator(#[trigger] a[i]) by {
        assert(white_space(s[i]));
        assert(a[i] == ascii_upper(s[i]));
    }
    assert forall|i: int| 0 <= i < c.len() implies is_name_separator(#[trigger] c[i]) by {
        assert(ts[q - p + i] == s[q + i]);
        assert(white_space(ts[q - p + i]));
        assert(c[i] == ascii_upper(s[q + i]));
    }
    lemma_spaced_concat(a + b, c);
    lemma_spaced_concat(a, b);
    lemma_spaced_separators(a);
    lemma_spaced_separators(c);
    lemma_words_trailing_spaces(spaced(a) + spaced(b), spaced(c));
    lemma_words_leading_spaces(spaced(a), spaced(b));
}

/// ASCII names that agree except for the case of letters and for which
/// separator (whitespace, `-` or `.`) stands at a place normalize alike: a
/// `-` or a `.` counts as a space.
pub proof fn lemma_case_and_separators(a: Seq<char>, b: Seq<char>)
    requires
        is_ascii_text(a),
        is_ascii_text(b),
        a.len() == b.len(),
        forall|i: int|
            0 <= i < a.len() ==> ascii_upper(#[trigger] a[i]) == ascii_upper(b[i]) || (
            is_name_separator(a[i]) && is_name_separator(b[i])),
    ensures
        runner_key(a) == runner_key(b),
{
    lemma_runner_key_untrimmed(a);
    lemma_runner_key_untrimmed(b);
    lemma_uppercase_ascii_at(a);
    lemma_uppercase_ascii_at(b);
    let ua = uppercase(a);
    let ub = uppercase(b);
    assert forall|i: int| 0 <= i < ua.len() implies char_class(#[trigger] ua[i]) == char_class(
        ub[i],
    ) by {
        assert(ua[i] == ascii_upper(a[i]));
        assert(ub[i] == ascii_upper(b[i]));
        assert(is_ascii_char(a[i]) && is_ascii_char(b[i]));
    }
    lemma_spaced_pointwise(ua, ub);
}

/// `s` with every apostrophe left out.
pub open spec fn without_apostrophes(s: Seq<char>) -> Seq<char>
    decreases s.len(),
{
    if s.len() == 0 {
        Seq::empty()
    } else if s.last() == '\'' {
        without_apostrophes(s.drop_last())
    } else {
        without_apostrophes(s.drop_last()).push(s.last())
    }
}

proof fn lemma_spaced_without_apostrophes(s: Seq<char>)
    requires
        is_ascii_text(s),
    ensures
        is_ascii_text(without_apostrophes(s)),
        spaced(uppercase(without_apostrophes(s))) == spaced(uppercase(s)),
    decreases s.len(),
{
    if s.len() > 0 {
        let d = s.drop_last();
        assert forall|i: int| 0 <= i < d.len() implies is_ascii_char(#[trigger] d[i]) by {
            assert(d[i] == s[i]);
        }
        lemma_spaced_without_apostrophes(d);
        let w = without_apostrophes(d);
        lemma_uppercase_ascii_at(s);
        lemma_uppercase_ascii_at(d);
        assert(uppercase(s).drop_last() =~= uppercase(d));
        assert(uppercase(s).last() == ascii_upper(s.last()));
        assert(is_ascii_char(s[s.len() - 1]));
        if s.last() == '\'' {
            assert(ascii_upper(s.last()) == '\'');
        } else {
            let w2 = w.push(s.last());
            assert forall|i: int| 0 <= i < w2.len() implies is_ascii_char(#[trigger] w2[i]) by {
                if i < w.len() {
                    assert(w2[i] == w[i]);
                }
            }
            lemma_uppercase_ascii_at(w);
            lemma_uppercase_ascii_at(w2);
            assert(uppercase(w2).drop_last() =~= uppercase(w));
            assert(uppercase(w2).last() == ascii_upper(s.last()));
        }
    }
}

/// Leaving out the apostrophes of an ASCII name does not change its
/// normalized form.
pub proof fn lemma_apostrophes_ignored(name: Seq<char>)
    requires
        is_ascii_text(name),
    ensures
        runner_key(without_apostrophes(name)) == runner_key(name),
{
    lemma_spaced_without_apostrophes(name);
    lemma_runner_key_untrimmed(name);
    lemma_runner_key_untrimmed(without_apostrophes(name));
}

/// `alnum_only` ignores whitespace at either end.
proof fn lemma_alnum_only_trimmed(x: Seq<char>)
    ensures
        alnum_only(trimmed(x)) == alnum_only(x),
{
    lemma_trim_start_suffix(x);
    let u = trim_start(x);
    lemma_trim_end_prefix(u);
    let m = trimmed(x);
    let a = x.subrange(0, x.len() - u.len());
    let b = u.subrange(m.len() as int, u.len() as int);
    assert(x =~= a + m + b);
    assert forall|i: int| 0 <= i < a.len() implies white_space(#[trigger] a[i]) by {
        assert(white_space(x[i]));
    }
    assert forall|i: int| 0 <= i < b.len() implies white_space(#[trigger] b[i]) by {
        assert(b[i] == u[m.len() + i]);
        assert(white_space(u[m.len() + i]));
    }
    lemma_alnum_only_white(a);
    lemma_alnum_only_white(b);
    lemma_alnum_only_concat(a + m, b);
    lemma_alnum_only_concat(a, m);
    assert(Seq::<char>::empty() + alnum_only(m) =~= alnum_only(m));
    assert(alnum_only(m) + Seq::<char>::empty() =~= alnum_only(m));
}

/// Reading a name keeps its letters and digits and adds only spaces.
proof fn lemma_alnum_only_scan(cs: Seq<char>)
    ensures
        alnum_only(runner_scan(cs).0) == alnum_only(cs),
    decreases cs.len(),
{
    if cs.len() > 0 {
        let d = cs.drop_last();
        let c = cs.last();
        lemma_alnum_only_scan(d);
        let p = runner_scan(d).0;
        if is_ascii_alnum(c) {
            assert(p.push(c).drop_last() =~= p);
        } else if c != '\'' && is_name_separator(c) && !runner_scan(d).1 && p.len() > 0 {
            assert(p.push(' ').drop_last() =~= p);
        }
    }
}

/// Normalizing a runner name keeps, in order, exactly the letters and digits
/// that normalizing it as a track name keeps: besides them it holds only the
/// spaces between words.
pub proof fn lemma_runner_key_letters(name: Seq<char>)
    ensures
        alnum_only(runner_key(name)) == track_key(name),
{
    let u = uppercase(trimmed(name));
    lemma_scanned_key(u);
    lemma_alnum_only_trimmed(runner_scan(u).0);
    lemma_alnum_only_scan(u);
}

/// The words of two texts with a space between them are the words of the
/// first followed by the words of the second.
proof fn lemma_words_split(t1: Seq<char>, t2: Seq<char>)
    ensures
        words(t1 + seq![' '] + t2) == words(t1) + words(t2),
    decreases t2.len(),
{
    let s = t1 + seq![' '] + t2;
    if t2.len() == 0 {
        assert(s.drop_last() =~= t1);
        assert(words(t1) + words(t2) =~= words(t1));
    } else {
        let d = t2.drop_last();
        let c = t2.last();
        lemma_words_split(t1, d);
        assert(s.drop_last() =~= t1 + seq![' '] + d);
        assert(s.last() == c);
        if c == ' ' {
        } else if d.len() > 0 && d.last() != ' ' {
            assert(s[s.len() - 2] == d.last());
            assert(t2[t2.len() - 2] == d.last());
            lemma_words_proper(d);
            let w1 = words(t1);
            let w2 = words(d);
            assert((w1 + w2).update((w1 + w2).len() - 1, (w1 + w2).last().push(c)) =~= w1
                + w2.update(w2.len() - 1, w2.last().push(c)));
        } else if d.len() > 0 {
            assert(s[s.len() - 2] == ' ');
            assert(t2[t2.len() - 2] == ' ');
            assert((words(t1) + words(d)).push(seq![c]) =~= words(t1) + words(d).push(seq![c]));
        } else {
            assert(s[s.len() - 2] == ' ');
            assert(d =~= Seq::<char>::empty());
            assert(words(t2) == words(d).push(seq![c]));
            assert((words(t1) + words(d)).push(seq![c]) =~= words(t1) + words(d).push(seq![c]));
        }
    }
}

/// Joining two non-empty lists of words puts one space between their joins.
proof fn lemma_join_concat(ws1: Seq<Seq<char>>, ws2: Seq<Seq<char>>)
    requires
        ws1.len() > 0,
        ws2.len() > 0,
    ensures
        join_words(ws1 + ws2) == join_words(ws1) + seq![' '] + join_words(ws2),
    decreases ws2.len(),
{
    assert((ws1 + ws2).drop_last() =~= ws1 + ws2.drop_last());
    if ws2.len() == 1 {
        assert(ws1 + ws2.drop_last() =~= ws1);
    } else {
        lemma_join_concat(ws1, ws2.drop_last());
        assert(join_words(ws1 + ws2) =~= join_words(ws1) + seq![' '] + join_words(ws2));
    }
}

/// Upper-casing ASCII text part by part.
proof fn lemma_uppercase_concat(a: Seq<char>, b: Seq<char>)
    requires
        is_ascii_text(a),
        is_ascii_text(b),
    ensures
        is_ascii_text(a + b),
        uppercase(a + b) == uppercase(a) + uppercase(b),
{
    assert forall|i: int| 0 <= i < (a + b).len() implies is_ascii_char(#[trigger] (a + b)[i]) by {
        if i < a.len() {
            assert((a + b)[i] == a[i]);
        } else {
            assert((a + b)[i] == b[i - a.len()]);
        }
    }
    assert(uppercase(a + b) =~= uppercase(a) + uppercase(b));
}

/// On ASCII names, a space between two parts that each normalize to some text
/// becomes exactly one space between their normalized forms.
pub proof fn lemma_runner_key_space(a: Seq<char>, b: Seq<char>)
    requires
        is_ascii_text(a),
        is_ascii_text(b),
        runner_key(a).len() > 0,
        runner_key(b).len() > 0,
    ensures
        runner_key(a + seq![' '] + b) == runner_key(a) + seq![' '] + runner_key(b),
{
    let sp = seq![' '];
    assert(is_ascii_text(sp));
    lemma_uppercase_concat(a, sp);
    lemma_uppercase_concat(a + sp, b);
    let s = a + sp + b;
    lemma_runner_key_untrimmed(s);
    lemma_runner_key_untrimmed(a);
    lemma_runner_key_untrimmed(b);
    assert(uppercase(sp) =~= sp);
    let ua = spaced(uppercase(a));
    let ub = spaced(uppercase(b));
    lemma_spaced_concat(uppercase(a), sp);
    lemma_spaced_concat(uppercase(a) + sp, uppercase(b));
    assert(sp.drop_last() =~= Seq::<char>::empty());
    assert(spaced(sp) == spaced(Seq::<char>::empty()).push(' '));
    assert(spaced(sp) =~= sp);
    lemma_words_split(ua, ub);
    assert(words(ua).len() > 0);
    assert(words(ub).len() > 0);
    lemma_join_concat(words(ua), words(ub));
}

/// The spaced text of one ASCII character that is neither a letter nor a
/// digit, upper-cased: a space for a separator, nothing otherwise.
proof fn lemma_spaced_one(c: char)
    requires
        is_ascii_char(c),
        !is_ascii_alnum(c),
    ensures
        uppercase(seq![c]) == seq![c],
        spaced(seq![c]) == (if is_name_separator(c) {
            seq![' ']
        } else {
            Seq::<char>::empty()
        }),
{
    assert(is_ascii_text(seq![c]));
    assert(uppercase(seq![c]) =~= seq![c]);
    assert(seq![c].drop_last() =~= Seq::<char>::empty());
    let t = seq![c];
    assert(t.last() == c);
    assert(spaced(t.drop_last()) == Seq::<char>::empty());
    if is_name_separator(c) {
        assert(spaced(t) == spaced(t.drop_last()).push(' '));
        assert(Seq::<char>::empty().push(' ') =~= seq![' ']);
    } else {
        assert(spaced(t) == spaced(t.drop_last()));
    }
}

/// On ASCII names, `-`, `.` and each ASCII whitespace character count as a
/// space.
pub proof fn lemma_runner_key_separator(a: Seq<char>, b: Seq<char>, c: char)
    requires
        is_ascii_text(a),
        is_ascii_text(b),
        c == '-' || c == '.' || c == '\t' || c == '\n' || c == '\u{b}' || c == '\u{c}' || c == '\r',
    ensures
        runner_key(a + seq![c] + b) == runner_key(a + seq![' '] + b),
{
    lemma_spaced_one(c);
    lemma_spaced_one(' ');
    let x = seq![c];
    let y = seq![' '];
    lemma_uppercase_concat(a, x);
    lemma_uppercase_concat(a + x, b);
    lemma_uppercase_concat(a, y);
    lemma_uppercase_concat(a + y, b);
    lemma_runner_key_untrimmed(a + x + b);
    lemma_runner_key_untrimmed(a + y + b);
    lemma_spaced_concat(uppercase(a), x);
    lemma_spaced_concat(uppercase(a) + x, uppercase(b));
    lemma_spaced_concat(uppercase(a), y);
    lemma_spaced_concat(uppercase(a) + y, uppercase(b));
}

/// On ASCII names, a character that is not a letter, a digit, whitespace,
/// `-` or `.` (an apostrophe, a comma, a bracket, ...) is dropped without
/// leaving a space.
pub proof fn lemma_runner_key_drops_punctuation(a: Seq<char>, b: Seq<char>, c: char)
    requires
        is_ascii_text(a),
        is_ascii_text(b),
        is_ascii_char(c),
        !is_ascii_alnum(c),
        !white_space(c),
        c != '-',
        c != '.',
    ensures
        runner_key(a + seq![c] + b) == runner_key(a + b),
{
    lemma_spaced_one(c);
    let x = seq![c];
    lemma_uppercase_concat(a, x);
    lemma_uppercase_concat(a + x, b);
    lemma_uppercase_concat(a, b);
    lemma_runner_key_untrimmed(a + x + b);
    lemma_runner_key_untrimmed(a + b);
    lemma_spaced_concat(uppercase(a), x);
    lemma_spaced_concat(uppercase(a) + x, uppercase(b));
    lemma_spaced_concat(uppercase(a), uppercase(b));
    assert(spaced(uppercase(a)) + Seq::<char>::empty() =~= spaced(uppercase(a)));
}

} // verus!
