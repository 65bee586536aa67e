//! Character classification and text helpers that the parser is built on.

use vstd::prelude::*;
use vstd::utf8::{char_is_scalar, encode_scalar, encode_utf8};
use vstd::string::StringSliceAdditionalSpecFns;

verus! {

/// Whether `c` has the Unicode `Uppercase` property, as `char::is_uppercase` reports it.
pub uninterp spec fn is_upper(c: char) -> bool;

/// Whether `c` has the Unicode `White_Space` property, which `char::is_whitespace` reports:
/// tab to carriage return, space, next line, no-break space, ogham space mark, the spaces from
/// en quad to hair space, line and paragraph separators, narrow no-break space, medium
/// mathematical space and ideographic space.
pub open spec fn is_space(c: char) -> bool {
    let u = c as u32;
    ||| 0x9 <= u <= 0xD
    ||| u == 0x20
    ||| u == 0x85
    ||| u == 0xA0
    ||| u == 0x1680
    ||| 0x2000 <= u <= 0x200A
    ||| u == 0x2028
    ||| u == 0x2029
    ||| u == 0x202F
    ||| u == 0x205F
    ||| u == 0x3000
}

/// Calls `char::is_uppercase`. The result is named by `is_upper`; for ASCII characters the
/// Unicode `Uppercase` property holds exactly of `'A'..='Z'`, which is stated too. Nothing
/// more is claimed for other characters.
#[verifier::external_body]
pub(crate) fn char_is_uppercase(c: char) -> (r: bool)
    ensures
        r == is_upper(c),
        (c as u32) < 128 ==> (r <==> ('A' <= c && c <= 'Z')),
{
    c.is_uppercase()
}

/// Calls `char::is_whitespace`, which reports the Unicode `White_Space` property: the result
/// is `is_space(c)`.
#[verifier::external_body]
pub(crate) fn char_is_whitespace(c: char) -> (r: bool)
    ensures
        r == is_space(c),
{
    c.is_whitespace()
}

/// Calls `String::push`: the string afterwards holds the old characters followed by `c`.
#[verifier::external_body]
pub(crate) fn push_char(s: &mut String, c: char)
    ensures
        final(s)@ == old(s)@.push(c),
{
    s.push(c);
}


/// The number of bytes the UTF-8 encoding of `c` takes.
pub open spec fn char_width(c: char) -> nat {
    if (c as u32) <= 0x7F {
        1
    } else if (c as u32) <= 0x7FF {
        2
    } else if (c as u32) <= 0xFFFF {
        3
    } else {
        4
    }
}

/// The number of bytes the UTF-8 encoding of `s` takes, as `str::len` counts it.
pub open spec fn byte_len(s: Seq<char>) -> nat
    decreases s.len(),
{
    if s.len() == 0 {
        0
    } else {
        char_width(s[0]) + byte_len(s.drop_first())
    }
}

/// The byte length of two texts put together is the sum of theirs.
pub proof fn lemma_byte_len_concat(a: Seq<char>, b: Seq<char>)
    ensures
        byte_len(a + b) == byte_len(a) + byte_len(b),
    decreases a.len(),
{
    if a.len() == 0 {
        assert(a + b =~= b);
    } else {
        lemma_byte_len_concat(a.drop_first(), b);
        assert((a + b).drop_first() =~= a.drop_first() + b);
    }
}

/// A text takes at least one and at most four bytes for each of its characters.
pub proof fn lemma_byte_len_bounds(s: Seq<char>)
    ensures
        s.len() <= byte_len(s) <= 4 * s.len(),
    decreases s.len(),
{
    if s.len() > 0 {
        lemma_byte_len_bounds(s.drop_first());
    }
}

/// The bytes of the first `i` characters and those of the rest make up the bytes of the text.
pub proof fn lemma_byte_len_split(s: Seq<char>, i: int)
    requires
        0 <= i <= s.len(),
    ensures
        byte_len(s) == byte_len(s.take(i)) + byte_len(s.skip(i)),
        byte_len(s.take(i)) <= byte_len(s),
{
    lemma_byte_len_concat(s.take(i), s.skip(i));
    assert(s.take(i) + s.skip(i) =~= s);
}

/// Whether every character of `s` is an ASCII character.
pub open spec fn ascii(s: Seq<char>) -> bool {
    forall|i: int| 0 <= i < s.len() ==> (#[trigger] s[i] as u32) < 0x80
}

/// A single character takes its own width.
pub proof fn lemma_byte_len_single(c: char)
    ensures
        byte_len(seq![c]) == char_width(c),
{
    assert(seq![c].drop_first() =~= Seq::<char>::empty());
    assert(byte_len(Seq::<char>::empty()) == 0);
}

/// A text of ASCII characters takes one byte for each of them.
pub proof fn lemma_byte_len_ascii(s: Seq<char>)
    requires
        ascii(s),
    ensures
        byte_len(s) == s.len(),
    decreases s.len(),
{
    if s.len() > 0 {
        assert((s[0] as u32) < 0x80);
        assert forall|i: int| 0 <= i < s.drop_first().len() implies (#[trigger] s.drop_first()[i]
            as u32) < 0x80 by {
            assert(s.drop_first()[i] == s[i + 1]);
        }
        lemma_byte_len_ascii(s.drop_first());
    }
}

/// `byte_len` is the length of the UTF-8 encoding.
pub proof fn lemma_byte_len_encoding(s: Seq<char>)
    ensures
        byte_len(s) == encode_utf8(s).len(),
    decreases s.len(),
{
    if s.len() > 0 {
        char_is_scalar(s[0]);
        assert(encode_scalar(s[0] as u32).len() == char_width(s[0]));
        lemma_byte_len_encoding(s.drop_first());
    }
}

/// The number of bytes `s` takes, as `str::len` gives it.
pub fn str_len(s: &str) -> (r: usize)
    requires
        byte_len(s@) <= usize::MAX,
    ensures
        r == byte_len(s@),
{
    proof {
        lemma_byte_len_encoding(s@);
        assert(s.spec_bytes() == encode_utf8(s@));
    }
    s.len()
}

/// Where byte offset `k` of `s` falls on the start of a character (or the end of `s`), the
/// index of that character; none where it falls inside a character or past the end, as
/// slicing a `str` at `k` requires.
pub open spec fn char_index_at(s: Seq<char>, k: int) -> Option<int>
    decreases s.len(),
{
    if k == 0 {
        Some(0)
    } else if k < 0 || s.len() == 0 || k < char_width(s[0]) {
        None
    } else {
        match char_index_at(s.drop_first(), k - char_width(s[0])) {
            Some(i) => Some(i + 1),
            None => None,
        }
    }
}

/// A byte offset on a character start gives the character whose first `i` characters take
/// exactly those bytes; a positive offset gives a positive index.
pub proof fn lemma_char_index_at(s: Seq<char>, k: int)
    ensures
        char_index_at(s, k) matches Some(i) ==> 0 <= i <= s.len() && byte_len(s.take(i)) == k && (
        k > 0 ==> i >= 1),
    decreases s.len(),
{
    if k != 0 && !(k < 0 || s.len() == 0 || k < char_width(s[0])) {
        lemma_char_index_at(s.drop_first(), k - char_width(s[0]));
        match char_index_at(s.drop_first(), k - char_width(s[0])) {
            Some(i) => {
                assert(s.take(i + 1).drop_first() =~= s.drop_first().take(i));
            },
            None => {},
        }
    } else if k == 0 {
        assert(s.take(0) =~= Seq::<char>::empty());
    }
}

/// The byte offset of a character's start leads back to that character.
pub proof fn lemma_char_index_at_start(s: Seq<char>, i: int)
    requires
        0 <= i <= s.len(),
    ensures
        char_index_at(s, byte_len(s.take(i)) as int) == Some(i),
    decreases s.len(),
{
    if i == 0 {
        assert(s.take(0) =~= Seq::<char>::empty());
    } else {
        assert(s.take(i).drop_first() =~= s.drop_first().take(i - 1));
        lemma_char_index_at_start(s.drop_first(), i - 1);
        lemma_byte_len_bounds(s.drop_first().take(i - 1));
        assert(byte_len(s.take(i)) == char_width(s[0]) + byte_len(s.drop_first().take(i - 1)));
    }
}

/// In a text of ASCII characters each byte offset up to the end is the start of the character
/// of the same index.
pub proof fn lemma_char_index_at_ascii(s: Seq<char>, k: int)
    requires
        ascii(s),
        0 <= k <= s.len(),
    ensures
        char_index_at(s, k) == Some(k),
{
    assert(ascii(s.take(k)));
    lemma_byte_len_ascii(s.take(k));
    lemma_char_index_at_start(s, k);
}

/// The index of the character that starts at byte offset `k` of `s`, if one does.
pub fn index_at_byte(s: &str, k: usize) -> (r: Option<usize>)
    ensures
        match char_index_at(s@, k as int) {
            Some(i) => r matches Some(j) && j == i,
            None => r is None,
        },
{
    let n = s.unicode_len();
    let mut i: usize = 0;
    let mut left: usize = k;
    proof {
        assert(s@.skip(0) =~= s@);
    }
    while i < n && left > 0
        invariant
            n == s@.len(),
            i <= n,
            left <= k,
            char_index_at(s@, k as int) == match char_index_at(s@.skip(i as int), left as int) {
                Some(j) => Some(j + i),
                None => None::<int>,
            },
        decreases n - i,
    {
        let c = s.get_char(i);
        let w = char_width_of(c);
        assert(s@.skip(i as int)[0] == c);
        assert(s@.skip(i as int).drop_first() =~= s@.skip(i + 1));
        if left < w {
            return None;
        }
        left = left - w;
        i = i + 1;
    }
    if left == 0 {
        Some(i)
    } else {
        None
    }
}

/// The number of bytes the UTF-8 encoding of `c` takes, as `char::len_utf8` gives it.
pub fn char_width_of(c: char) -> (r: usize)
    ensures
        r == char_width(c),
{
    let u = c as u32;
    if u <= 0x7F {
        1
    } else if u <= 0x7FF {
        2
    } else if u <= 0xFFFF {
        3
    } else {
        4
    }
}

/// The number of bytes `s` takes, where that number fits in a `usize`.
pub fn checked_str_len(s: &str) -> (r: Option<usize>)
    ensures
        match r {
            Some(n) => n == byte_len(s@),
            None => byte_len(s@) > usize::MAX,
        },
{
    let n = s.unicode_len();
    let mut i: usize = n;
    let mut total: usize = 0;
    assert(s@.skip(n as int) =~= Seq::<char>::empty());
    while i > 0
        invariant
            n == s@.len(),
            i <= n,
            total == byte_len(s@.skip(i as int)),
        decreases i,
    {
        let w = char_width_of(s.get_char(i - 1));
        assert(s@.skip(i - 1).drop_first() =~= s@.skip(i as int));
        match total.checked_add(w) {
            Some(t) => {
                total = t;
            },
            None => {
                proof {
                    lemma_byte_len_split(s@, i - 1);
                }
                return None;
            },
        }
        i = i - 1;
    }
    assert(s@.skip(0) =~= s@);
    Some(total)
}

/// Whether `s` takes more than one byte.
pub fn more_than_one_byte(s: &str) -> (r: bool)
    ensures
        r == (byte_len(s@) > 1),
{
    let n = s.unicode_len();
    if n == 0 {
        return false;
    }
    proof {
        lemma_byte_len_bounds(s@.drop_first());
    }
    n > 1 || char_width_of(s.get_char(0)) > 1
}

/// `s` with its leading white space removed, as `str::trim_start` does.
pub open spec fn trim_start(s: Seq<char>) -> Seq<char>
    decreases s.len(),
{
    if s.len() > 0 && is_space(s[0]) {
        trim_start(s.drop_first())
    } else {
        s
    }
}

/// `s` with its trailing white space removed, as `str::trim_end` does.
pub open spec fn trim_end(s: Seq<char>) -> Seq<char>
    decreases s.len(),
{
    if s.len() > 0 && is_space(s.last()) {
        trim_end(s.drop_last())
    } else {
        s
    }
}

/// `s` with leading and trailing white space removed, as `str::trim` does.
pub open spec fn trim(s: Seq<char>) -> Seq<char> {
    trim_end(trim_start(s))
}

/// What `trim_start` leaves is no longer than the text, ends it, and starts with no white space.
pub proof fn lemma_trim_start_facts(s: Seq<char>)
    ensures
        trim_start(s).len() <= s.len(),
        trim_start(s) == s.skip(s.len() - trim_start(s).len()),
        trim_start(s).len() > 0 ==> !is_space(trim_start(s)[0]),
    decreases s.len(),
{
    if s.len() > 0 && is_space(s[0]) {
        lemma_trim_start_facts(s.drop_first());
        assert(s.drop_first().skip(s.drop_first().len() - trim_start(s).len()) =~= s.skip(
            s.len() - trim_start(s).len(),
        ));
    } else {
        assert(s.skip(0) =~= s);
    }
}

/// What `trim_end` leaves is no longer than the text, starts it, and ends with no white space.
pub proof fn lemma_trim_end_facts(s: Seq<char>)
    ensures
        trim_end(s).len() <= s.len(),
        trim_end(s) == s.take(trim_end(s).len() as int),
        trim_end(s).len() > 0 ==> !is_space(trim_end(s).last()),
    decreases s.len(),
{
    if s.len() > 0 && is_space(s.last()) {
        lemma_trim_end_facts(s.drop_last());
        assert(s.drop_last().take(trim_end(s).len() as int) =~= s.take(trim_end(s).len() as int));
    } else {
        assert(s.take(s.len() as int) =~= s);
    }
}

/// A text that starts with no white space is left as it is by `trim_start`.
pub proof fn lemma_trim_start_keeps_nonspace_first(s: Seq<char>)
    requires
        s.len() > 0,
        !is_space(s[0]),
    ensures
        trim_start(s) == s,
{
}

/// A text that neither starts nor ends with white space is left as it is by `trim`.
pub proof fn lemma_trim_unchanged(s: Seq<char>)
    requires
        s.len() > 0,
        !is_space(s[0]),
        !is_space(s.last()),
    ensures
        trim(s) == s,
{
    lemma_trim_start_keeps_nonspace_first(s);
}

/// Where what `trim` leaves starts in the text.
pub open spec fn trim_offset(s: Seq<char>) -> int {
    s.len() - trim_start(s).len()
}

/// What `trim` leaves has no white space at either end, and is a piece of the text.
pub proof fn lemma_trim_facts(s: Seq<char>)
    ensures
        trim(s).len() <= s.len(),
        trim(s).len() > 0 ==> !is_space(trim(s)[0]) && !is_space(trim(s).last()),
        0 <= trim_offset(s) && trim_offset(s) + trim(s).len() <= s.len(),
        trim(s) == s.subrange(trim_offset(s), trim_offset(s) + trim(s).len()),
{
    lemma_trim_start_facts(s);
    lemma_trim_end_facts(trim_start(s));
    let ts = trim_start(s);
    let a = s.len() - ts.len();
    if trim(s).len() > 0 {
        assert(trim(s)[0] == ts[0]);
    }
    assert(trim(s) == s.subrange(a, a + trim(s).len()));
}

/// Trimming twice trims no more than once.
pub proof fn lemma_trim_idempotent(s: Seq<char>)
    ensures
        trim(trim(s)) == trim(s),
{
    lemma_trim_facts(s);
    let t = trim(s);
    if t.len() > 0 {
        lemma_trim_start_keeps_nonspace_first(t);
        assert(!is_space(t.last()));
    } else {
        assert(trim_start(t) == t);
    }
}

/// The index of the first occurrence of `c` in `s` at or after `i`.
pub open spec fn find_from(s: Seq<char>, c: char, i: int) -> Option<int>
    decreases s.len() - i,
{
    if i < 0 || i >= s.len() {
        None
    } else if s[i] == c {
        Some(i)
    } else {
        find_from(s, c, i + 1)
    }
}

/// The index of the first occurrence of `c` in `s`, as `str::find` with a `char` pattern gives it
/// (counted in characters).
pub open spec fn find_char(s: Seq<char>, c: char) -> Option<int> {
    find_from(s, c, 0)
}

/// Whether `s` starts with the character `c`.
pub open spec fn starts_with_char(s: Seq<char>, c: char) -> bool {
    s.len() > 0 && s[0] == c
}

/// What `find_from` finds is an occurrence, and the first one from `i` on.
pub proof fn lemma_find_from_facts(s: Seq<char>, c: char, i: int)
    requires
        0 <= i,
    ensures
        match find_from(s, c, i) {
            Some(k) => i <= k < s.len() && s[k] == c && forall|j: int| i <= j < k ==> s[j] != c,
            None => forall|j: int| i <= j < s.len() ==> s[j] != c,
        },
    decreases s.len() - i,
{
    if i < s.len() && s[i] != c {
        lemma_find_from_facts(s, c, i + 1);
    }
}

/// What `find_char` finds is the first occurrence.
pub proof fn lemma_find_char_facts(s: Seq<char>, c: char)
    ensures
        match find_char(s, c) {
            Some(k) => 0 <= k < s.len() && s[k] == c && forall|j: int| 0 <= j < k ==> s[j] != c,
            None => forall|j: int| 0 <= j < s.len() ==> s[j] != c,
        },
{
    lemma_find_from_facts(s, c, 0);
}

/// The index of the first `c` in `s`, counted in characters.
pub fn find_in(s: &str, c: char) -> (r: Option<usize>)
    ensures
        match find_char(s@, c) {
            Some(k) => r matches Some(i) && i == k,
            None => r is None,
        },
{
    let n = s.unicode_len();
    let mut i: usize = 0;
    while i < n
        invariant
            n == s@.len(),
            i <= n,
            find_char(s@, c) == find_from(s@, c, i as int),
        decreases n - i,
    {
        if s.get_char(i) == c {
            return Some(i);
        }
        i = i + 1;
    }
    None
}

/// Whether `s` starts with `c`.
pub fn str_starts_with(s: &str, c: char) -> (r: bool)
    ensures
        r == starts_with_char(s@, c),
{
    let n = s.unicode_len();
    n > 0 && s.get_char(0) == c
}

/// `s` with leading and trailing white space removed.
pub fn trim_str(s: &str) -> (r: &str)
    ensures
        r@ == trim(s@),
{
    let n = s.unicode_len();
    let mut i: usize = 0;
    assert(s@.skip(0) =~= s@);
    while i < n && char_is_whitespace(s.get_char(i))
        invariant
            n == s@.len(),
            i <= n,
            trim_start(s@) == trim_start(s@.skip(i as int)),
        decreases n - i,
    {
        assert(s@.skip(i as int).drop_first() =~= s@.skip(i + 1));
        i = i + 1;
    }
    assert(s@.skip(i as int) =~= s@.subrange(i as int, n as int));
    assert(trim_start(s@) =~= s@.subrange(i as int, n as int));
    let mut j: usize = n;
    while j > i && char_is_whitespace(s.get_char(j - 1))
        invariant
            n == s@.len(),
            i <= j <= n,
            trim(s@) == trim_end(s@.subrange(i as int, j as int)),
        decreases j,
    {
        assert(s@.subrange(i as int, j as int).drop_last() =~= s@.subrange(i as int, j - 1));
        j = j - 1;
    }
    s.substring_char(i, j)
}

/// Appends the characters of `t` to `out`.
pub fn push_str(out: &mut String, t: &str)
    ensures
        final(out)@ == old(out)@ + t@,
{
    let n = t.unicode_len();
    let mut i: usize = 0;
    while i < n
        invariant
            n == t@.len(),
            i <= n,
            out@ == old(out)@ + t@.take(i as int),
        decreases n - i,
    {
        push_char(out, t.get_char(i));
        assert(t@.take(i + 1) =~= t@.take(i as int).push(t@[i as int]));
        i = i + 1;
    }
    assert(t@.take(n as int) =~= t@);
}

/// A new string holding the characters of `t`.
pub fn string_of(t: &str) -> (r: String)
    ensures
        r@ == t@,
{
    let mut out = String::new();
    push_str(&mut out, t);
    assert(out@ =~= t@);
    out
}


/// The index of the first place at or after `i` where `a` is followed by `b` in `s`.
pub open spec fn find_pair_from(s: Seq<char>, a: char, b: char, i: int) -> Option<int>
    decreases s.len() - i,
{
    if i < 0 || i + 1 >= s.len() {
        None
    } else if s[i] == a && s[i + 1] == b {
        Some(i)
    } else {
        find_pair_from(s, a, b, i + 1)
    }
}

/// The index of the first occurrence of the two characters `a`, `b` side by side in `s`, as
/// `str::find` with a two-character pattern gives it (counted in characters).
pub open spec fn find_pair(s: Seq<char>, a: char, b: char) -> Option<int> {
    find_pair_from(s, a, b, 0)
}

/// What `find_pair_from` finds is an occurrence of the pair, and the first one from `i` on.
pub proof fn lemma_find_pair_from_facts(s: Seq<char>, a: char, b: char, i: int)
    requires
        0 <= i,
    ensures
        match find_pair_from(s, a, b, i) {
            Some(k) => i <= k && k + 1 < s.len() && s[k] == a && s[k + 1] == b,
            None => forall|j: int| i <= j && j + 1 < s.len() ==> !(#[trigger] s[j] == a && s[j + 1] == b),
        },
    decreases s.len() - i,
{
    if i + 1 < s.len() && !(s[i] == a && s[i + 1] == b) {
        lemma_find_pair_from_facts(s, a, b, i + 1);
    }
}

/// Where `a` followed by `b` first stands in `s`, counted in characters.
pub fn find_pair_in(s: &str, a: char, b: char) -> (r: Option<usize>)
    ensures
        match find_pair(s@, a, b) {
            Some(k) => r matches Some(i) && i == k,
            None => r is None,
        },
{
    let n = s.unicode_len();
    let mut i: usize = 0;
    while i < n && i + 1 < n
        invariant
            n == s@.len(),
            i <= n,
            find_pair(s@, a, b) == find_pair_from(s@, a, b, i as int),
        decreases n - i,
    {
        if s.get_char(i) == a && s.get_char(i + 1) == b {
            return Some(i);
        }
        i = i + 1;
    }
    None
}

/// Whether `s` starts with a white space character.
pub open spec fn starts_with_space(s: Seq<char>) -> bool {
    s.len() > 0 && is_space(s[0])
}

/// Whether `s` starts with a white space character.
pub fn str_starts_with_space(s: &str) -> (r: bool)
    ensures
        r == starts_with_space(s@),
{
    let n = s.unicode_len();
    n > 0 && char_is_whitespace(s.get_char(0))
}

/// `p` without a carriage return at its end.
pub open spec fn strip_cr(p: Seq<char>) -> Seq<char> {
    if p.len() > 0 && p.last() == '\r' {
        p.drop_last()
    } else {
        p
    }
}

/// The lines of `s`, as `str::lines` gives them: split at each line feed, a carriage return
/// before the line feed dropped, no empty last line after a final line feed.
pub open spec fn lines_of(s: Seq<char>) -> Seq<Seq<char>>
    decreases s.len(),
{
    if s.len() == 0 {
        Seq::empty()
    } else {
        match find_char(s, '\n') {
            None => seq![s],
            Some(i) => {
                proof {
                    lemma_find_char_facts(s, '\n');
                }
                seq![strip_cr(s.take(i))] + lines_of(s.skip(i + 1))
            },
        }
    }
}

/// The sum of the lengths of `ls`.
pub open spec fn total_len(ls: Seq<Seq<char>>) -> nat
    decreases ls.len(),
{
    if ls.len() == 0 {
        0
    } else {
        ls[0].len() + total_len(ls.drop_first())
    }
}

/// The total length of two lists of lines put together is the sum of their totals.
pub proof fn lemma_total_len_concat(a: Seq<Seq<char>>, b: Seq<Seq<char>>)
    ensures
        total_len(a + b) == total_len(a) + total_len(b),
    decreases a.len(),
{
    if a.len() == 0 {
        assert(a + b =~= b);
    } else {
        lemma_total_len_concat(a.drop_first(), b);
        assert((a + b).drop_first() =~= a.drop_first() + b);
    }
}

/// The lines of a text hold no more characters than the text.
pub proof fn lemma_lines_total(s: Seq<char>)
    ensures
        total_len(lines_of(s)) <= s.len(),
    decreases s.len(),
{
    if s.len() > 0 {
        lemma_find_char_facts(s, '\n');
        match find_char(s, '\n') {
            None => {
                assert(total_len(seq![s]) == s.len() + total_len(seq![s].drop_first()));
                assert(seq![s].drop_first() =~= Seq::<Seq<char>>::empty());
            },
            Some(i) => {
                lemma_lines_total(s.skip(i + 1));
                let first = seq![strip_cr(s.take(i))];
                lemma_total_len_concat(first, lines_of(s.skip(i + 1)));
                assert(first.drop_first() =~= Seq::<Seq<char>>::empty());
                assert(total_len(first) == strip_cr(s.take(i)).len() + total_len(first.drop_first()));
                assert(strip_cr(s.take(i)).len() <= i);
                assert(lines_of(s) == first + lines_of(s.skip(i + 1)));
            },
        }
    }
}

/// Splits `s` into its lines, as `str::lines` does.
pub fn split_lines(s: &str) -> (r: Vec<&str>)
    ensures
        r@.map_values(|l: &str| l@) == lines_of(s@),
{
    let mut out: Vec<&str> = Vec::new();
    let mut rest: &str = s;
    assert(out@.map_values(|l: &str| l@) + lines_of(rest@) =~= lines_of(s@));
    loop
        invariant
            out@.map_values(|l: &str| l@) + lines_of(rest@) == lines_of(s@),
        decreases rest@.len(),
    {
        let ghost before = out@.map_values(|l: &str| l@);
        let n = rest.unicode_len();
        if n == 0 {
            assert(before + lines_of(rest@) =~= before);
            return out;
        }
        match find_in(rest, '\n') {
            None => {
                out.push(rest);
                assert(out@.map_values(|l: &str| l@) =~= before + lines_of(rest@));
                return out;
            },
            Some(i) => {
                proof {
                    lemma_find_char_facts(rest@, '\n');
                }
                let mut piece = rest.substring_char(0, i);
                assert(piece@ =~= rest@.take(i as int));
                if i > 0 && piece.get_char(i - 1) == '\r' {
                    piece = rest.substring_char(0, i - 1);
                    assert(piece@ =~= rest@.take(i as int).drop_last());
                }
                out.push(piece);
                let next = rest.substring_char(i + 1, n);
                assert(next@ =~= rest@.skip(i + 1));
                assert(out@.map_values(|l: &str| l@) =~= before.push(strip_cr(rest@.take(i as int))));
                assert(lines_of(rest@) == seq![strip_cr(rest@.take(i as int))] + lines_of(next@));
                assert(out@.map_values(|l: &str| l@) + lines_of(next@) =~= before + lines_of(rest@));
                rest = next;
            },
        }
    }
}

} // verus!
