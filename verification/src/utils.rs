//! Matching of delimiters in text.

use vstd::prelude::*;
use std::ops::Range;
use crate::text::{
    ascii, byte_len, char_index_at, find_char, find_in, index_at_byte, lemma_byte_len_ascii,
    lemma_byte_len_bounds, lemma_byte_len_split, lemma_char_index_at, lemma_char_index_at_ascii,
    lemma_find_char_facts, str_len,
};

verus! {

/// What scanning a text for a delimited group can end in.
pub enum DelimScan {
    /// The first opening delimiter stands at the first index, its matching closing one at the
    /// second.
    Found(int, int),
    /// The text ended with this many opening delimiters still unclosed.
    Unclosed(int),
    /// A closing delimiter came while no opening one was open: the depth counter would drop
    /// below zero.
    Underflow,
}

/// Scans `s` from index `i` on, with `first` the index of the first opening delimiter seen so far
/// and `count` the current depth.
pub open spec fn delim_scan(
    s: Seq<char>,
    open: char,
    close: char,
    i: int,
    first: Option<int>,
    count: int,
) -> DelimScan
    decreases s.len() - i,
{
    if i < 0 || i >= s.len() {
        DelimScan::Unclosed(count)
    } else if s[i] == open {
        let first2 = if first is None { Some(i) } else { first };
        delim_scan(s, open, close, i + 1, first2, count + 1)
    } else if s[i] == close {
        if count == 0 {
            DelimScan::Underflow
        } else if count - 1 == 0 && first is Some {
            DelimScan::Found(first->0, i)
        } else {
            delim_scan(s, open, close, i + 1, first, count - 1)
        }
    } else {
        delim_scan(s, open, close, i + 1, first, count)
    }
}

/// The outcome of scanning all of `s` for the group that its first `open` starts.
pub open spec fn closing_delim(s: Seq<char>, open: char, close: char) -> DelimScan {
    delim_scan(s, open, close, 0, None, 0)
}

/// Finds the first `open` in `s` and the `close` that matches it. On success the range runs
/// from the index of that `open` to the index of its matching `close` (both counted in
/// characters); when the text ends first, the error is the number of groups still open.
pub fn find_closing_delim(s: &str, open: char, close: char) -> (r: Result<Range<usize>, usize>)
    requires
        !(closing_delim(s@, open, close) is Underflow),
    ensures
        match closing_delim(s@, open, close) {
            DelimScan::Found(a, b) => r matches Ok(rg) && rg.start == a && rg.end == b,
            DelimScan::Unclosed(c) => r == Err::<Range<usize>, usize>(c as usize),
            DelimScan::Underflow => false,
        },
{
    match scan_group(s, open, close) {
        Some(r) => r,
        None => {
            proof {
                assert(false);
            }
            Err(0)
        },
    }
}

/// Scans `s` as `find_closing_delim` does, giving nothing where a `close` comes with no group
/// open (where the depth counter would drop below zero and the program stop).
pub fn scan_group(s: &str, open: char, close: char) -> (r: Option<Result<Range<usize>, usize>>)
    ensures
        match closing_delim(s@, open, close) {
            DelimScan::Found(a, b) => r matches Some(Ok(rg)) && rg.start == a && rg.end == b,
            DelimScan::Unclosed(c) => r == Some(Err::<Range<usize>, usize>(c as usize)),
            DelimScan::Underflow => r is None,
        },
{
    let n = s.unicode_len();
    let mut first_found = usize::MAX;
    let mut count: usize = 0;
    let mut idx: usize = 0;
    while idx < n
        invariant
            n == s@.len(),
            idx <= n,
            count <= idx,
            first_found == usize::MAX || first_found < idx,
            count > 0 ==> first_found != usize::MAX,
            closing_delim(s@, open, close) == delim_scan(
                s@,
                open,
                close,
                idx as int,
                if first_found == usize::MAX { None } else { Some(first_found as int) },
                count as int,
            ),
        decreases n - idx,
    {
        let ch = s.get_char(idx);
        if ch == open {
            if first_found == usize::MAX {
                first_found = idx;
            }
            count += 1;
            idx += 1;
            continue;
        }
        if ch == close {
            if count == 0 {
                return None;
            }
            count -= 1;
            if count == 0 && first_found != usize::MAX {
                return Some(Ok(first_found..idx));
            }
        }
        idx += 1;
    }
    Some(Err(count))
}


proof fn lemma_delim_scan(
    s: Seq<char>,
    open: char,
    close: char,
    i: int,
    first: Option<int>,
    count: int,
)
    requires
        0 <= i <= s.len(),
        0 <= count <= i,
        (first is None) <==> count == 0,
        first is Some ==> (0 <= first->0 < i && s[first->0] == open && forall|k: int|
            0 <= k < first->0 ==> s[k] != open),
        first is None ==> forall|k: int| 0 <= k < i ==> s[k] != open,
    ensures
        match delim_scan(s, open, close, i, first, count) {
            DelimScan::Found(a, b) => 0 <= a < b < s.len() && s[a] == open && s[b] == close
                && forall|k: int| 0 <= k < a ==> s[k] != open,
            DelimScan::Unclosed(c) => 0 <= c <= s.len() && (c == 0 <==> forall|k: int|
                0 <= k < s.len() ==> s[k] != open),
            DelimScan::Underflow => true,
        },
    decreases s.len() - i,
{
    if i < s.len() {
        if s[i] == open {
            let first2 = if first is None { Some(i) } else { first };
            lemma_delim_scan(s, open, close, i + 1, first2, count + 1);
        } else if s[i] == close {
            if count != 0 && !(count - 1 == 0 && first is Some) {
                lemma_delim_scan(s, open, close, i + 1, first, count - 1);
            }
        } else {
            lemma_delim_scan(s, open, close, i + 1, first, count);
        }
    }
}

/// What `find_closing_delim` reports is where the delimiters stand: on success the range starts
/// at the first `open` of the text and ends at a `close` after it; it fails with zero open
/// groups exactly when the text holds no `open` at all.
pub proof fn lemma_closing_delim_positions(s: Seq<char>, open: char, close: char)
    ensures
        match closing_delim(s, open, close) {
            DelimScan::Found(a, b) => 0 <= a < b < s.len() && s[a] == open && s[b] == close
                && forall|k: int| 0 <= k < a ==> s[k] != open,
            DelimScan::Unclosed(c) => 0 <= c <= s.len() && (c == 0 <==> forall|k: int|
                0 <= k < s.len() ==> s[k] != open),
            DelimScan::Underflow => true,
        },
{
    lemma_delim_scan(s, open, close, 0, None, 0);
}

proof fn lemma_scan_open_no_underflow(
    s: Seq<char>,
    open: char,
    close: char,
    i: int,
    first: Option<int>,
    count: int,
)
    requires
        count >= 1,
        first is Some,
    ensures
        !(delim_scan(s, open, close, i, first, count) is Underflow),
    decreases s.len() - i,
{
    if 0 <= i < s.len() {
        if s[i] == open {
            lemma_scan_open_no_underflow(s, open, close, i + 1, first, count + 1);
        } else if s[i] == close {
            if count - 1 != 0 {
                lemma_scan_open_no_underflow(s, open, close, i + 1, first, count - 1);
            }
        } else {
            lemma_scan_open_no_underflow(s, open, close, i + 1, first, count);
        }
    }
}

/// A text that starts with an opening delimiter never closes more groups than it opened.
pub proof fn lemma_opened_no_underflow(s: Seq<char>, open: char, close: char)
    requires
        s.len() > 0,
        s[0] == open,
    ensures
        !(closing_delim(s, open, close) is Underflow),
{
    lemma_scan_open_no_underflow(s, open, close, 1, Some(0), 1);
}

/// A scan that finds a group finds its closing delimiter at or after where it started.
pub proof fn lemma_scan_found_after(
    s: Seq<char>,
    open: char,
    close: char,
    i: int,
    first: Option<int>,
    count: int,
)
    ensures
        delim_scan(s, open, close, i, first, count) matches DelimScan::Found(_, b) ==> i <= b,
    decreases s.len() - i,
{
    if 0 <= i < s.len() {
        if s[i] == open {
            let first2 = if first is None { Some(i) } else { first };
            lemma_scan_found_after(s, open, close, i + 1, first2, count + 1);
        } else if s[i] == close {
            lemma_scan_found_after(s, open, close, i + 1, first, count - 1);
        } else {
            lemma_scan_found_after(s, open, close, i + 1, first, count);
        }
    }
}

/// A scan that finds a group closing at `b` finds the same in the text cut after `b`.
pub proof fn lemma_scan_prefix(
    s: Seq<char>,
    open: char,
    close: char,
    i: int,
    first: Option<int>,
    count: int,
    a: int,
    b: int,
)
    requires
        0 <= i <= b < s.len(),
        delim_scan(s, open, close, i, first, count) == DelimScan::Found(a, b),
    ensures
        delim_scan(s.take(b + 1), open, close, i, first, count) == DelimScan::Found(a, b),
    decreases b - i,
{
    let u = s.take(b + 1);
    assert(u[i] == s[i]);
    if s[i] == open {
        let first2 = if first is None { Some(i) } else { first };
        lemma_scan_found_after(s, open, close, i + 1, first2, count + 1);
        lemma_scan_prefix(s, open, close, i + 1, first2, count + 1, a, b);
    } else if s[i] == close {
        if !(count - 1 == 0 && first is Some) && count != 0 {
            lemma_scan_found_after(s, open, close, i + 1, first, count - 1);
            lemma_scan_prefix(s, open, close, i + 1, first, count - 1, a, b);
        }
    } else {
        lemma_scan_found_after(s, open, close, i + 1, first, count);
        lemma_scan_prefix(s, open, close, i + 1, first, count, a, b);
    }
}

/// What splitting a text into groups by delimiters can end in.
pub enum GroupScan {
    /// The pieces, in order.
    Groups(Seq<Seq<char>>),
    /// A group was left open; the number of unclosed delimiters.
    Unclosed(int),
    /// The program stops: a cut falls inside a character, runs backwards or past the end.
    Stops,
}

/// Splits `s` into the text outside groups and the insides of the groups, appending to `groups`.
/// The text is cut at byte offsets: the inside of a group runs from the byte after the opening
/// delimiter's offset to the closing delimiter's character index (within the scanned rest) plus
/// that offset, and scanning goes on one byte further.
pub open spec fn group_spec(s: Seq<char>, open: char, close: char, groups: Seq<Seq<char>>) -> GroupScan
    decreases s.len(),
{
    match find_char(s, open) {
        None => if groups.len() == 0 {
            GroupScan::Groups(seq![s])
        } else if s.len() > 0 {
            GroupScan::Groups(groups.push(s))
        } else {
            GroupScan::Groups(groups)
        },
        Some(start) => {
            let g1 = if start > 0 { groups.push(s.take(start)) } else { groups };
            let sb: int = byte_len(s.take(start)) as int;
            match closing_delim(s.skip(start), open, close) {
                DelimScan::Underflow => GroupScan::Stops,
                DelimScan::Unclosed(c) => GroupScan::Unclosed(c),
                DelimScan::Found(a, b) => match (
                    char_index_at(s, sb + 1),
                    char_index_at(s, b + sb),
                    char_index_at(s, b + sb + 1),
                ) {
                    (Some(x), Some(y), Some(z)) => if x <= y {
                        proof {
                            lemma_char_index_at(s, b + sb + 1);
                        }
                        group_spec(s.skip(z), open, close, g1.push(s.subrange(x, y)))
                    } else {
                        GroupScan::Stops
                    },
                    _ => GroupScan::Stops,
                },
            }
        },
    }
}

/// Splits `s` into pieces: the text between groups (where not empty) and the inside of each
/// group that `open` and `close` delimit; fails with the number of unclosed groups when a
/// group is left open. A text with no group at all comes back whole.
pub fn group_by_delim(s: &str, open: char, close: char) -> (r: Result<Vec<&str>, usize>)
    requires
        !(group_spec(s@, open, close, Seq::empty()) is Stops),
        4 * s@.len() <= usize::MAX,
    ensures
        match group_spec(s@, open, close, Seq::empty()) {
            GroupScan::Groups(gs) => r matches Ok(v) && v@.len() == gs.len() && forall|i: int|
                0 <= i < gs.len() ==> #[trigger] v@[i]@ == gs[i],
            GroupScan::Unclosed(c) => r == Err::<Vec<&str>, usize>(c as usize),
            GroupScan::Stops => false,
        },
{
    let ghost whole = s@;
    let mut cur: &str = s;
    let mut groups: Vec<&str> = Vec::new();
    assert(groups@.map_values(|g: &str| g@) =~= Seq::<Seq<char>>::empty());
    loop
        invariant
            whole == s@,
            4 * cur@.len() <= usize::MAX,
            !(group_spec(whole, open, close, Seq::empty()) is Stops),
            group_spec(whole, open, close, Seq::empty()) == group_spec(
                cur@,
                open,
                close,
                groups@.map_values(|g: &str| g@),
            ),
        decreases cur@.len(),
    {
        let ghost gv = groups@.map_values(|g: &str| g@);
        let n = cur.unicode_len();
        let found = find_in(cur, open);
        match found {
            None => {
                if groups.len() == 0 {
                    assert(gv =~= Seq::<Seq<char>>::empty());
                    let mut v = Vec::new();
                    v.push(cur);
                    assert(group_spec(cur@, open, close, gv) == GroupScan::Groups(seq![cur@]));
                    return Ok(v);
                } else {
                    if n > 0 {
                        groups.push(cur);
                        assert(groups@.map_values(|g: &str| g@) =~= gv.push(cur@));
                    }
                    return Ok(groups);
                }
            },
            Some(start) => {
                proof {
                    lemma_find_char_facts(cur@, open);
                    lemma_byte_len_bounds(cur@);
                }
                let front = cur.substring_char(0, start);
                assert(front@ =~= cur@.take(start as int));
                if start > 0 {
                    groups.push(front);
                    assert(groups@.map_values(|g: &str| g@) =~= gv.push(cur@.take(start as int)));
                }
                let ghost g1 = groups@.map_values(|g: &str| g@);
                proof {
                    lemma_byte_len_split(cur@, start as int);
                    lemma_byte_len_bounds(front@);
                }
                let sb = str_len(front);
                let rest = cur.substring_char(start, n);
                assert(rest@ =~= cur@.skip(start as int));
                proof {
                    lemma_closing_delim_positions(rest@, open, close);
                    lemma_opened_no_underflow(rest@, open, close);
                }
                let closing = match find_closing_delim(rest, open, close) {
                    Ok(c) => c,
                    Err(c) => {
                        assert(group_spec(cur@, open, close, gv) == GroupScan::Unclosed(c as int));
                        return Err(c);
                    },
                };
                let x = index_at_byte(cur, sb + 1);
                let y = index_at_byte(cur, closing.end + sb);
                let z = index_at_byte(cur, closing.end + sb + 1);
                match (x, y, z) {
                    (Some(x), Some(y), Some(z)) => {
                        proof {
                            lemma_char_index_at(cur@, sb + 1);
                            lemma_char_index_at(cur@, closing.end + sb);
                            lemma_char_index_at(cur@, closing.end + sb + 1);
                        }
                        if x > y {
                            assert(false);
                            return Err(0);
                        }
                        let inside = cur.substring_char(x, y);
                        groups.push(inside);
                        assert(groups@.map_values(|g: &str| g@) =~= g1.push(inside@));
                        let next = cur.substring_char(z, n);
                        assert(next@ =~= cur@.skip(z as int));
                        cur = next;
                    },
                    _ => {
                        assert(false);
                        return Err(0);
                    },
                }
            },
        }
    }
}

/// The text the pieces `ps` make when joined, each piece marked in `grp` put back between
/// `open` and `close`.
pub open spec fn rejoin(ps: Seq<Seq<char>>, grp: Seq<bool>, open: char, close: char) -> Seq<
    char,
>
    decreases ps.len(),
{
    if ps.len() == 0 || grp.len() == 0 {
        Seq::empty()
    } else {
        (if grp[0] {
            seq![open] + ps[0] + seq![close]
        } else {
            ps[0]
        }) + rejoin(ps.drop_first(), grp.drop_first(), open, close)
    }
}

proof fn lemma_rejoin_concat(
    a: Seq<Seq<char>>,
    ga: Seq<bool>,
    b: Seq<Seq<char>>,
    gb: Seq<bool>,
    open: char,
    close: char,
)
    requires
        a.len() == ga.len(),
        b.len() == gb.len(),
    ensures
        rejoin(a + b, ga + gb, open, close) == rejoin(a, ga, open, close) + rejoin(
            b,
            gb,
            open,
            close,
        ),
    decreases a.len(),
{
    if a.len() == 0 {
        assert(a + b =~= b);
        assert(ga + gb =~= gb);
        assert(rejoin(a, ga, open, close) + rejoin(b, gb, open, close) =~= rejoin(
            b,
            gb,
            open,
            close,
        ));
    } else {
        lemma_rejoin_concat(a.drop_first(), ga.drop_first(), b, gb, open, close);
        assert((a + b).drop_first() =~= a.drop_first() + b);
        assert((ga + gb).drop_first() =~= ga.drop_first() + gb);
        assert((a + b)[0] == a[0]);
        assert((ga + gb)[0] == ga[0]);
    }
}

proof fn lemma_rejoin_one(p: Seq<char>, g: bool, open: char, close: char)
    ensures
        rejoin(seq![p], seq![g], open, close) == if g {
            seq![open] + p + seq![close]
        } else {
            p
        },
{
    assert(seq![p].drop_first().len() == 0);
    let e = rejoin(seq![p].drop_first(), seq![g].drop_first(), open, close);
    assert(e == Seq::<char>::empty());
    if g {
        assert(seq![open] + p + seq![close] + e =~= seq![open] + p + seq![close]);
    } else {
        assert(p + e =~= p);
    }
}

proof fn lemma_ascii_part(s: Seq<char>, a: int, b: int)
    requires
        ascii(s),
        0 <= a <= b <= s.len(),
    ensures
        ascii(s.subrange(a, b)),
{
    assert forall|i: int| 0 <= i < s.subrange(a, b).len() implies (#[trigger] s.subrange(a, b)[i]
        as u32) < 0x80 by {
        assert(s.subrange(a, b)[i] == s[a + i]);
    }
}

/// How deep `p` leaves the nesting of groups: one more for each `open`, one less for each
/// `close`.
pub open spec fn nesting(p: Seq<char>, open: char, close: char) -> int
    decreases p.len(),
{
    if p.len() == 0 {
        0
    } else {
        nesting(p.drop_last(), open, close) + if p.last() == open {
            1int
        } else if p.last() == close {
            -1int
        } else {
            0int
        }
    }
}

/// Whether `p` closes every group it opens and no part of it from the start closes more than
/// it opened.
pub open spec fn balanced(p: Seq<char>, open: char, close: char) -> bool {
    nesting(p, open, close) == 0 && forall|k: int| 0 <= k <= p.len() ==> nesting(
        #[trigger] p.take(k),
        open,
        close,
    ) >= 0
}

proof fn lemma_nesting_step(p: Seq<char>, k: int, open: char, close: char)
    requires
        0 <= k < p.len(),
    ensures
        nesting(p.take(k + 1), open, close) == nesting(p.take(k), open, close) + if p[k] == open {
            1int
        } else if p[k] == close {
            -1int
        } else {
            0int
        },
{
    assert(p.take(k + 1).drop_last() =~= p.take(k));
}

/// While the scan of `w` is inside the group its first character opens, the nesting never drops
/// to zero before the closing delimiter it finds.
proof fn lemma_scan_nesting(w: Seq<char>, open: char, close: char, i: int, c: int)
    requires
        1 <= i <= w.len(),
        c >= 1,
        c == nesting(w.take(i), open, close),
        forall|k: int| 1 <= k <= i ==> nesting(#[trigger] w.take(k), open, close) >= 1,
    ensures
        delim_scan(w, open, close, i, Some(0), c) matches DelimScan::Found(_, b) ==> i <= b
            && nesting(w.take(b), open, close) == 1 && forall|k: int|
            1 <= k <= b ==> nesting(#[trigger] w.take(k), open, close) >= 1,
    decreases w.len() - i,
{
    if i < w.len() {
        lemma_nesting_step(w, i, open, close);
        if w[i] == open {
            lemma_scan_nesting(w, open, close, i + 1, c + 1);
        } else if w[i] == close {
            if c - 1 != 0 {
                lemma_scan_nesting(w, open, close, i + 1, c - 1);
            }
        } else {
            lemma_scan_nesting(w, open, close, i + 1, c);
        }
    }
}

/// The inside of the group that the first character of `w` opens is balanced.
proof fn lemma_group_inside_balanced(w: Seq<char>, open: char, close: char, b: int)
    requires
        w.len() > 0,
        w[0] == open,
        closing_delim(w, open, close) == DelimScan::Found(0, b),
    ensures
        balanced(w.subrange(1, b), open, close),
{
    lemma_closing_delim_positions(w, open, close);
    lemma_nesting_step(w, 0, open, close);
    assert(w.take(0) =~= Seq::<char>::empty());
    assert(delim_scan(w, open, close, 0, None, 0) == delim_scan(w, open, close, 1, Some(0), 1));
    lemma_scan_nesting(w, open, close, 1, 1);
    let inside = w.subrange(1, b);
    assert forall|k: int| 0 <= k <= inside.len() implies nesting(w.take(1 + k), open, close) == 1
        + nesting(#[trigger] inside.take(k), open, close) by {
        lemma_inside_nesting(w, open, close, b, k);
    }
    assert(inside.take(inside.len() as int) =~= inside);
    assert forall|k: int| 0 <= k <= inside.len() implies nesting(#[trigger] inside.take(k), open, close)
        >= 0 by {
        assert(nesting(w.take(1 + k), open, close) == 1 + nesting(inside.take(k), open, close));
    }
}

proof fn lemma_inside_nesting(w: Seq<char>, open: char, close: char, b: int, k: int)
    requires
        w.len() > 0,
        w[0] == open,
        1 <= b <= w.len(),
        0 <= k <= b - 1,
    ensures
        nesting(w.take(1 + k), open, close) == 1 + nesting(w.subrange(1, b).take(k), open, close),
    decreases k,
{
    let inside = w.subrange(1, b);
    if k == 0 {
        lemma_nesting_step(w, 0, open, close);
        assert(w.take(0) =~= Seq::<char>::empty());
        assert(inside.take(0) =~= Seq::<char>::empty());
    } else {
        lemma_inside_nesting(w, open, close, b, k - 1);
        lemma_nesting_step(w, k, open, close);
        lemma_nesting_step(inside, k - 1, open, close);
        assert(inside[k - 1] == w[k]);
    }
}

/// What splitting ASCII text `s` after the pieces `g` gives: `g` first, then pieces that, with
/// the marked ones put back between the delimiters, make `s`, the unmarked ones holding no
/// `open`.
proof fn lemma_group_pieces(s: Seq<char>, open: char, close: char, g: Seq<Seq<char>>) -> (grp:
    Seq<bool>)
    requires
        ascii(s),
    ensures
        group_spec(s, open, close, g) matches GroupScan::Groups(ps) ==> {
            &&& ps.len() == g.len() + grp.len()
            &&& ps.take(g.len() as int) == g
            &&& rejoin(ps.skip(g.len() as int), grp, open, close) == s
            &&& forall|i: int, j: int|
                0 <= i < grp.len() && !grp[i] && 0 <= j < ps[g.len() + i].len() ==> #[trigger] ps[g.len()
                    + i][j] != open
            &&& forall|i: int|
                0 <= i < grp.len() ==> (#[trigger] grp[i] ==> balanced(ps[g.len() + i], open, close))
                    && (!grp[i] ==> ps[g.len() + i].len() > 0 || (g.len() == 0 && ps.len() == 1))
            &&& forall|i: int| 0 <= i < grp.len() - 1 ==> #[trigger] grp[i] || grp[i + 1]
        },
    decreases s.len(),
{
    lemma_find_char_facts(s, open);
    match find_char(s, open) {
        None => {
            if g.len() == 0 {
                let ps = seq![s];
                lemma_rejoin_one(s, false, open, close);
                assert(ps.skip(0) =~= ps);
                assert(ps.take(0) =~= g);
                seq![false]
            } else if s.len() > 0 {
                let ps = g.push(s);
                lemma_rejoin_one(s, false, open, close);
                assert(ps.skip(g.len() as int) =~= seq![s]);
                assert(ps.take(g.len() as int) =~= g);
                seq![false]
            } else {
                assert(g.skip(g.len() as int) =~= Seq::<Seq<char>>::empty());
                assert(g.take(g.len() as int) =~= g);
                assert(s =~= Seq::<char>::empty());
                Seq::empty()
            }
        },
        Some(start) => {
            let g1 = if start > 0 {
                g.push(s.take(start))
            } else {
                g
            };
            lemma_ascii_part(s, 0, start);
            assert(s.take(start) =~= s.subrange(0, start));
            lemma_byte_len_ascii(s.take(start));
            let w = s.skip(start);
            lemma_closing_delim_positions(w, open, close);
            match closing_delim(w, open, close) {
                DelimScan::Found(a, b) => {
                    assert(w[0] == open);
                    assert(a == 0);
                    lemma_char_index_at_ascii(s, start + 1);
                    lemma_char_index_at_ascii(s, b + start);
                    lemma_char_index_at_ascii(s, b + start + 1);
                    let inside = s.subrange(start + 1, b + start);
                    let rest = s.skip(b + start + 1);
                    lemma_ascii_part(s, b + start + 1, s.len() as int);
                    assert(rest =~= s.subrange(b + start + 1, s.len() as int));
                    let g2 = g1.push(inside);
                    assert(group_spec(s, open, close, g) == group_spec(rest, open, close, g2));
                    let sub = lemma_group_pieces(rest, open, close, g2);
                    let pre: Seq<bool> = if start > 0 {
                        seq![false]
                    } else {
                        Seq::empty()
                    };
                    let grp = pre + seq![true] + sub;
                    match group_spec(rest, open, close, g2) {
                        GroupScan::Groups(ps) => {
                            let mid = g2.skip(g.len() as int);
                            assert(ps.take(g.len() as int) =~= g) by {
                                assert(ps.take(g2.len() as int) == g2);
                                assert forall|i: int| 0 <= i < g.len() implies ps[i] == g[i] by {
                                    assert(ps.take(g2.len() as int)[i] == ps[i]);
                                    assert(g2[i] == g[i]);
                                }
                            }
                            assert(ps.skip(g.len() as int) =~= mid + ps.skip(g2.len() as int)) by {
                                assert(ps.take(g2.len() as int) == g2);
                                assert forall|i: int| 0 <= i < mid.len() implies ps[g.len() + i]
                                    == mid[i] by {
                                    assert(ps.take(g2.len() as int)[g.len() + i] == ps[g.len()
                                        + i]);
                                }
                            }
                            lemma_rejoin_concat(
                                mid,
                                pre + seq![true],
                                ps.skip(g2.len() as int),
                                sub,
                                open,
                                close,
                            );
                            assert(pre + seq![true] + sub =~= (pre + seq![true]) + sub);
                            lemma_rejoin_one(inside, true, open, close);
                            if start > 0 {
                                assert(mid =~= seq![s.take(start)] + seq![inside]);
                                assert(pre + seq![true] =~= seq![false] + seq![true]);
                                lemma_rejoin_concat(
                                    seq![s.take(start)],
                                    seq![false],
                                    seq![inside],
                                    seq![true],
                                    open,
                                    close,
                                );
                                lemma_rejoin_one(s.take(start), false, open, close);
                            } else {
                                assert(mid =~= seq![inside]);
                                assert(pre + seq![true] =~= seq![true]);
                            }
                            assert(w[b] == close);
                            assert(s =~= s.take(start) + (seq![open] + inside + seq![close])
                                + rest);
                            lemma_group_inside_balanced(w, open, close, b);
                            assert(inside =~= w.subrange(1, b));
                            assert forall|i: int| 0 <= i < grp.len() implies (#[trigger] grp[i]
                                ==> balanced(ps[g.len() + i], open, close)) && (!grp[i] ==> ps[g.len()
                                + i].len() > 0 || (g.len() == 0 && ps.len() == 1)) by {
                                if i < pre.len() {
                                    assert(ps[g.len() + i] == s.take(start));
                                } else if i == pre.len() {
                                    assert(ps[g.len() + i] == mid[i]);
                                    assert(mid[i] == inside);
                                } else {
                                    let i2 = i - pre.len() - 1;
                                    assert(grp[i] == sub[i2]);
                                    assert(g2.len() + i2 == g.len() + i);
                                }
                            }
                            assert forall|i: int| 0 <= i < grp.len() - 1 implies #[trigger] grp[i]
                                || grp[i + 1] by {
                                if i > pre.len() {
                                    assert(grp[i] == sub[i - pre.len() - 1]);
                                    assert(grp[i + 1] == sub[i - pre.len()]);
                                } else if i < pre.len() {
                                    assert(grp[i + 1] == true);
                                }
                            }
                            assert forall|i: int, j: int|
                                0 <= i < grp.len() && !grp[i] && 0 <= j < ps[g.len()
                                    + i].len() implies #[trigger] ps[g.len() + i][j] != open by {
                                if i < pre.len() {
                                    assert(ps[g.len() + i] == s.take(start));
                                    assert(s.take(start)[j] == s[j]);
                                } else if i > pre.len() {
                                    let i2 = i - pre.len() - 1;
                                    assert(grp[i] == sub[i2]);
                                    assert(g2.len() + i2 == g.len() + i);
                                }
                            }
                        },
                        _ => {},
                    }
                    grp
                },
                _ => Seq::empty(),
            }
        },
    }
}

/// Splitting ASCII text into groups: the pieces outside groups hold no opening delimiter, and
/// the pieces, each group's inside put back between its delimiters, make the whole text again.
/// (The cuts fall at byte offsets; this law keeps to ASCII text, where bytes and characters
/// agree.)
pub proof fn lemma_groups_law(s: Seq<char>, open: char, close: char)
    requires
        ascii(s),
    ensures
        group_spec(s, open, close, Seq::empty()) matches GroupScan::Groups(ps) ==> exists|
            grp: Seq<bool>,
        |
            #![trigger rejoin(ps, grp, open, close)]
            {
            &&& grp.len() == ps.len()
            &&& rejoin(ps, grp, open, close) == s
            &&& forall|i: int, j: int|
                0 <= i < ps.len() && !grp[i] && 0 <= j < ps[i].len() ==> #[trigger] ps[i][j]
                    != open
            &&& forall|i: int|
                0 <= i < ps.len() ==> (#[trigger] grp[i] ==> balanced(ps[i], open, close)) && (
                !grp[i] ==> ps[i].len() > 0 || ps.len() == 1)
            &&& forall|i: int| 0 <= i < ps.len() - 1 ==> #[trigger] grp[i] || grp[i + 1]
        },
{
    let grp = lemma_group_pieces(s, open, close, Seq::empty());
    match group_spec(s, open, close, Seq::empty()) {
        GroupScan::Groups(ps) => {
            assert(ps.skip(0) =~= ps);
            assert forall|i: int, j: int|
                0 <= i < ps.len() && !grp[i] && 0 <= j < ps[i].len() implies #[trigger] ps[i][j]
                    != open by {
                assert(ps[0 + i] == ps[i]);
            }
            assert forall|i: int| 0 <= i < ps.len() implies (#[trigger] grp[i] ==> balanced(
                ps[i],
                open,
                close,
            )) && (!grp[i] ==> ps[i].len() > 0 || ps.len() == 1) by {
                assert(ps[0 + i] == ps[i]);
            }
            assert(rejoin(ps, grp, open, close) == s);
        },
        _ => {},
    }
}

} // verus!
