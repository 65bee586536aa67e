//! Variables: an identifier with an optional subscript.

use vstd::prelude::*;
use crate::error::{ParseError, Parsed};
use crate::text::{
    byte_len, char_index_at, char_is_uppercase, char_width, index_at_byte, is_space, is_upper,
    ascii, lemma_byte_len_ascii, lemma_byte_len_bounds, lemma_byte_len_concat, lemma_byte_len_single,
    lemma_byte_len_split, lemma_char_index_at, lemma_char_index_at_ascii,
    lemma_trim_facts, lemma_trim_idempotent, lemma_trim_unchanged, more_than_one_byte, push_char, push_str, str_len,
    string_of, trim, trim_offset, trim_str,
};
use crate::utils::{
    closing_delim, delim_scan, lemma_closing_delim_positions, lemma_opened_no_underflow,
    lemma_scan_found_after, lemma_scan_prefix, scan_group, DelimScan,
};

verus! {

/// The mathematical value of a variable: its identifier and its subscript.
pub struct VarV {
    pub ident: Seq<char>,
    pub subtext: Option<Seq<char>>,
}

/// A variable of a lambda term, such as `x`, `TRUE` or `x_{12}`.
#[derive(Debug, Clone, PartialEq, Eq, Hash)]
pub struct Variable {
    pub ident: String,
    pub subtext: Option<String>,
}

impl View for Variable {
    type V = VarV;

    open spec fn view(&self) -> VarV {
        VarV {
            ident: self.ident@,
            subtext: match self.subtext {
                Some(st) => Some(st@),
                None => None,
            },
        }
    }
}

/// The number of bytes a variable takes in the text it was read from, counted in UTF-8 bytes:
/// the identifier, and for a subscript of one byte `_` and that byte, else `_{`, the subscript
/// and `}`.
pub open spec fn var_len(v: VarV) -> nat {
    byte_len(v.ident) + match v.subtext {
        Some(st) => if byte_len(st) != 1 {
            byte_len(st) + 3
        } else {
            byte_len(st) + 1
        },
        None => 0,
    }
}

/// How a variable is written out: the identifier, then `_{subscript}` for a subscript of more
/// than one byte and `_subscript` otherwise.
pub open spec fn var_text(v: VarV) -> Seq<char> {
    match v.subtext {
        Some(sub) => if byte_len(sub) > 1 {
            v.ident + seq!['_', '{'] + sub + seq!['}']
        } else {
            v.ident + seq!['_'] + sub
        },
        None => v.ident,
    }
}

/// The end of the run of uppercase characters of `t` that starts at `i`.
pub open spec fn upper_run(t: Seq<char>, i: int) -> int
    decreases t.len() - i,
{
    if 0 <= i < t.len() && is_upper(t[i]) && t[i] != '_' && !is_space(t[i]) {
        upper_run(t, i + 1)
    } else {
        i
    }
}

/// Where the identifier of the variable read from the trimmed text `t` ends: a run of uppercase
/// characters, or else the first character alone.
pub open spec fn ident_end(t: Seq<char>) -> int {
    if is_upper(t[0]) && t[0] != '_' {
        upper_run(t, 0)
    } else {
        1
    }
}

/// The subscript group whose `{` stands at character `idx` of `t`. The text is cut at byte
/// offset `idx` (the character index is taken as a byte offset), the first group is found in
/// what follows, and its inside is cut out of `t` between the byte offsets `start + idx + 1`
/// and `end + idx`, with `start`, `end` the character indices of the group's delimiters in the
/// cut text. None where a cut does not fall on a character boundary or runs backwards, or the
/// group is not closed: there the program stops.
pub open spec fn brace_subtext(t: Seq<char>, idx: int) -> Option<Seq<char>> {
    match char_index_at(t, idx) {
        None => None,
        Some(j) => match closing_delim(t.skip(j), '{', '}') {
            DelimScan::Found(a, b) => match (
                char_index_at(t, a + idx + 1),
                char_index_at(t, b + idx),
            ) {
                (Some(x), Some(y)) => if x <= y {
                    Some(t.subrange(x, y))
                } else {
                    None
                },
                _ => None,
            },
            _ => None,
        },
    }
}

/// Reading a variable from `s`: white space around it is dropped; the identifier is a run of
/// uppercase characters or a single character; after `_` comes a subscript of one character, or
/// a group in braces (see `brace_subtext`, where the program can stop).
pub open spec fn parse_variable(s: Seq<char>) -> Parsed<VarV> {
    let t = trim(s);
    if t.len() == 0 {
        Parsed::Refused(ParseError::InvalidVariable)
    } else {
        let p = ident_end(t);
        let ident = t.take(p);
        if p < t.len() && t[p] == '_' && p + 1 < t.len() {
            let idx = p + 1;
            if t[idx] == '{' {
                match brace_subtext(t, idx) {
                    Some(sub) => Parsed::Value(VarV { ident, subtext: Some(sub) }),
                    None => Parsed::Aborts,
                }
            } else {
                Parsed::Value(VarV { ident, subtext: Some(seq![t[idx]]) })
            }
        } else {
            Parsed::Value(VarV { ident, subtext: None })
        }
    }
}

/// A run of uppercase characters stays within the text and holds only such characters.
pub proof fn lemma_upper_run_bounds(t: Seq<char>, i: int)
    requires
        0 <= i <= t.len(),
    ensures
        i <= upper_run(t, i) <= t.len(),
        forall|k: int| i <= k < upper_run(t, i) ==> is_upper(t[k]) && t[k] != '_' && !is_space(t[k]),
    decreases t.len() - i,
{
    if i < t.len() && is_upper(t[i]) && t[i] != '_' && !is_space(t[i]) {
        lemma_upper_run_bounds(t, i + 1);
    }
}

/// Bytes of a piece of a text are no more than the bytes of the text.
pub proof fn lemma_byte_len_subrange(t: Seq<char>, x: int, y: int)
    requires
        0 <= x <= y <= t.len(),
    ensures
        byte_len(t.subrange(x, y)) <= byte_len(t),
        byte_len(t.subrange(x, y)) >= y - x,
{
    lemma_byte_len_split(t, y);
    lemma_byte_len_split(t.take(y), x);
    assert(t.take(y).skip(x) =~= t.subrange(x, y));
    lemma_byte_len_bounds(t.subrange(x, y));
}

/// A variable read from text has an identifier of at least one character, and takes at least
/// one and at most three bytes for each byte of the text.
pub proof fn lemma_parsed_variable_len(s: Seq<char>)
    ensures
        parse_variable(s) matches Parsed::Value(v) ==> v.ident.len() >= 1 && 1 <= var_len(v) <= 3
            * byte_len(s),
{
    lemma_trim_facts(s);
    let t = trim(s);
    if t.len() > 0 {
        let off = trim_offset(s);
        lemma_byte_len_subrange(s, off, off + t.len());
        assert(s.subrange(off, off + t.len()) == t);
        let p = ident_end(t);
        lemma_upper_run_bounds(t, 0);
        if is_upper(t[0]) && t[0] != '_' {
            lemma_upper_run_bounds(t, 1);
        }
        assert(1 <= p <= t.len());
        lemma_byte_len_subrange(t, 0, p);
        assert(t.subrange(0, p) == t.take(p));
        if p < t.len() && t[p] == '_' && p + 1 < t.len() {
            let idx = p + 1;
            lemma_byte_len_split(t, p + 2);
            lemma_byte_len_subrange(t, 0, p + 2);
            let head = t.take(p + 2);
            assert(head =~= t.take(p) + seq![t[p], t[idx]]);
            lemma_byte_len_concat(t.take(p), seq![t[p], t[idx]]);
            assert(seq![t[p], t[idx]].drop_first() =~= seq![t[idx]]);
            lemma_byte_len_single(t[p]);
            lemma_byte_len_single(t[idx]);
            assert(byte_len(seq![t[p], t[idx]]) == char_width(t[p]) + byte_len(seq![t[idx]]));
            if t[idx] == '{' {
                match brace_subtext(t, idx) {
                    Some(sub) => {
                        let j = char_index_at(t, idx)->0;
                        let w = t.skip(j);
                        match closing_delim(w, '{', '}') {
                            DelimScan::Found(a, b) => {
                                lemma_char_index_at(t, a + idx + 1);
                                lemma_char_index_at(t, b + idx);
                                let x = char_index_at(t, a + idx + 1)->0;
                                let y = char_index_at(t, b + idx)->0;
                                lemma_byte_len_subrange(t, x, y);
                            },
                            _ => {},
                        }
                    },
                    None => {},
                }
            }
        }
    }
}

/// A variable read from ASCII text takes no more bytes than the text without white space
/// around it, and fewer where that text ends in a `.` that the variable does not hold.
pub proof fn lemma_parsed_variable_len_ascii(s: Seq<char>)
    requires
        ascii(s),
    ensures
        parse_variable(s) matches Parsed::Value(v) ==> var_len(v) <= trim(s).len() && ((trim(
            s,
        ).last() == '.' && (forall|i: int| 0 <= i < v.ident.len() ==> v.ident[i] != '.')
            && v.subtext != Some(seq!['.'])) ==> var_len(v) < trim(s).len()),
{
    lemma_trim_facts(s);
    let t = trim(s);
    let off = trim_offset(s);
    if t.len() > 0 {
        assert(ascii(t)) by {
            assert forall|i: int| 0 <= i < t.len() implies (#[trigger] t[i] as u32) < 0x80 by {
                assert(t[i] == s[off + i]);
            }
        }
        let p = ident_end(t);
        lemma_upper_run_bounds(t, 0);
        if is_upper(t[0]) && t[0] != '_' {
            lemma_upper_run_bounds(t, 1);
            assert(upper_run(t, 0) == upper_run(t, 1));
        }
        assert(1 <= p <= t.len());
        let ident = t.take(p);
        assert(ascii(ident)) by {
            assert forall|i: int| 0 <= i < ident.len() implies (#[trigger] ident[i] as u32)
                < 0x80 by {
                assert(ident[i] == t[i]);
            }
        }
        lemma_byte_len_ascii(ident);
        if p == t.len() {
            assert(ident[p - 1] == t.last());
        }
        if p < t.len() && t[p] == '_' && p + 1 < t.len() {
            let idx = p + 1;
            if t[idx] == '{' {
                let w = t.skip(idx);
                lemma_char_index_at_ascii(t, idx);
                lemma_closing_delim_positions(w, '{', '}');
                match closing_delim(w, '{', '}') {
                    DelimScan::Found(a, b) => {
                        assert(w[0] == '{');
                        assert(a == 0);
                        lemma_char_index_at_ascii(t, a + idx + 1);
                        lemma_char_index_at_ascii(t, b + idx);
                        let sub = t.subrange(idx + 1, b + idx);
                        assert(ascii(sub)) by {
                            assert forall|i: int| 0 <= i < sub.len() implies (#[trigger] sub[i]
                                as u32) < 0x80 by {
                                assert(sub[i] == t[idx + 1 + i]);
                            }
                        }
                        lemma_byte_len_ascii(sub);
                        assert(t[b + idx] == w[b]);
                    },
                    _ => {},
                }
            } else {
                lemma_byte_len_single(t[idx]);
                assert((t[idx] as u32) < 0x80);
                if idx == t.len() - 1 {
                    assert(seq![t[idx]] =~= seq![t.last()]);
                }
            }
        }
    }
}

/// Reading a variable ignores white space around it: trimming the text first changes nothing.
pub proof fn lemma_parse_variable_trimmed(s: Seq<char>)
    ensures
        parse_variable(trim(s)) == parse_variable(s),
{
    lemma_trim_idempotent(s);
}

/// Whether a variable's subscript survives being written out and read back: it is not empty
/// and not a single white space character.
pub open spec fn sub_reads_back(v: VarV) -> bool {
    match v.subtext {
        Some(st) => st.len() > 1 || (st.len() == 1 && !is_space(st[0])),
        None => true,
    }
}

proof fn lemma_upper_run_same(t: Seq<char>, u: Seq<char>, i: int, p: int)
    requires
        0 <= i <= p <= t.len(),
        p <= u.len(),
        upper_run(t, i) == p,
        forall|k: int| i <= k < p ==> u[k] == t[k],
        p < u.len() ==> u[p] == '_',
    ensures
        upper_run(u, i) == p,
    decreases p - i,
{
    if i < p {
        lemma_upper_run_same(t, u, i + 1, p);
    }
}

/// Writing out a variable read from ASCII text and reading that back gives the same variable,
/// unless its subscript is empty or a single white space character.
#[verifier::spinoff_prover]
#[verifier::rlimit(60)]
pub proof fn lemma_variable_text_reads_back(s: Seq<char>)
    requires
        ascii(s),
        parse_variable(s) matches Parsed::Value(v) && sub_reads_back(v),
    ensures
        parse_variable(s) matches Parsed::Value(v) ==> parse_variable(var_text(v)) == Parsed::Value(v),
{
    lemma_trim_facts(s);
    let t = trim(s);
    let off = trim_offset(s);
    assert(ascii(t)) by {
        assert forall|i: int| 0 <= i < t.len() implies (#[trigger] t[i] as u32) < 0x80 by {
            assert(t[i] == s[off + i]);
        }
    }
    let p = ident_end(t);
    lemma_upper_run_bounds(t, 0);
    if is_upper(t[0]) && t[0] != '_' {
        lemma_upper_run_bounds(t, 1);
        assert(upper_run(t, 0) == upper_run(t, 1));
    }
    assert(1 <= p <= t.len());
    assert(forall|k: int| 0 <= k < p ==> !is_space(#[trigger] t[k]));
    let ident = t.take(p);
    let v = parse_variable(s)->Value_0;
    assert(v.ident == ident);
    let u = var_text(v);
    assert(u[0] == t[0]);
    match v.subtext {
        None => {
            assert(u == ident);
            lemma_trim_unchanged(u);
            if is_upper(t[0]) && t[0] != '_' {
                lemma_upper_run_same(t, u, 0, p);
            }
            assert(ident_end(u) == p);
            assert(u.take(p) =~= u);
        },
        Some(st) => {
            let idx = p + 1;
            assert(p < t.len() && t[p] == '_' && p + 1 < t.len());
            let w = t.skip(idx);
            if st.len() == 1 {
                if t[idx] == '{' {
                    lemma_closing_delim_positions(w, '{', '}');
                    lemma_opened_no_underflow(w, '{', '}');
                    lemma_char_index_at_ascii(t, idx);
                    match closing_delim(w, '{', '}') {
                        DelimScan::Found(a, b) => {
                            assert(w[0] == '{');
                            assert(a == 0);
                            lemma_char_index_at_ascii(t, a + idx + 1);
                            lemma_char_index_at_ascii(t, b + idx);
                            assert(st =~= w.subrange(1, b));
                            assert(b == 2);
                            if w[1] == '{' {
                                assert(delim_scan(w, '{', '}', 0, None, 0) == delim_scan(
                                    w,
                                    '{',
                                    '}',
                                    1,
                                    Some(0),
                                    1,
                                ));
                                assert(delim_scan(w, '{', '}', 1, Some(0), 1) == delim_scan(
                                    w,
                                    '{',
                                    '}',
                                    2,
                                    Some(0),
                                    2,
                                ));
                                assert(delim_scan(w, '{', '}', 2, Some(0), 2) == delim_scan(
                                    w,
                                    '{',
                                    '}',
                                    3,
                                    Some(0),
                                    1,
                                ));
                                lemma_scan_found_after(w, '{', '}', 3, Some(0), 1);
                            }
                            assert(st[0] != '{');
                        },
                        _ => {},
                    }
                } else {
                    assert(st[0] == t[idx]);
                }
                assert((st[0] as u32) < 0x80) by {
                    if t[idx] == '{' {
                        assert(st[0] == t[idx + 1]);
                    } else {
                        assert(st[0] == t[idx]);
                    }
                }
                assert(st =~= seq![st[0]]);
                lemma_byte_len_single(st[0]);
                assert(byte_len(st) == 1);
                assert(u =~= ident + seq!['_'] + st);
                assert(u.last() == st[0]);
                lemma_trim_unchanged(u);
                if is_upper(t[0]) && t[0] != '_' {
                    lemma_upper_run_same(t, u, 0, p);
                }
                assert(ident_end(u) == p);
                assert(u[p] == '_');
                assert(u[p + 1] == st[0]);
                assert(u.take(p) =~= ident);
                assert(seq![u[p + 1]] =~= st);
            } else {
                if t[idx] != '{' {
                    lemma_byte_len_single(t[idx]);
                }
                assert(t[idx] == '{');
                lemma_closing_delim_positions(w, '{', '}');
                lemma_opened_no_underflow(w, '{', '}');
                lemma_char_index_at_ascii(t, idx);
                match closing_delim(w, '{', '}') {
                    DelimScan::Found(a, b) => {
                        assert(w[0] == '{');
                        assert(a == 0);
                        lemma_char_index_at_ascii(t, a + idx + 1);
                        lemma_char_index_at_ascii(t, b + idx);
                        assert(st =~= w.subrange(1, b));
                        assert(ascii(st)) by {
                            assert forall|i: int| 0 <= i < st.len() implies (#[trigger] st[i]
                                as u32) < 0x80 by {
                                assert(st[i] == t[idx + 1 + i]);
                            }
                        }
                        lemma_byte_len_ascii(st);
                        lemma_scan_prefix(w, '{', '}', 0, None, 0, 0, b);
                        assert(u =~= ident + seq!['_', '{'] + st + seq!['}']);
                        assert(ascii(u)) by {
                            assert forall|i: int| 0 <= i < u.len() implies (#[trigger] u[i]
                                as u32) < 0x80 by {
                                if i < p {
                                    assert(u[i] == t[i]);
                                } else if p + 2 <= i < p + 2 + st.len() {
                                    assert(u[i] == st[i - p - 2]);
                                }
                            }
                        }
                        lemma_char_index_at_ascii(u, p + 1);
                        lemma_char_index_at_ascii(u, p + 2);
                        lemma_char_index_at_ascii(u, b + p + 1);
                        lemma_trim_unchanged(u);
                        if is_upper(t[0]) && t[0] != '_' {
                            lemma_upper_run_same(t, u, 0, p);
                        }
                        assert(ident_end(u) == p);
                        assert(u[p] == '_');
                        assert(u[p + 1] == '{');
                        assert(u.skip(p + 1) =~= w.take(b + 1));
                        assert(u.take(p) =~= ident);
                        assert(u.subrange(p + 2, b + p + 1) =~= st);
                    },
                    _ => {},
                }
            }
        },
    }
}

/// Whether a variable has, in ASCII, a form that reading gives: its identifier is one character
/// that is neither uppercase nor white space, or a run of uppercase characters none of which is
/// `_` or white space; its subscript is absent, one character other than `{` and white space,
/// or at least two characters none of which is a brace.
pub open spec fn well_formed_var(v: VarV) -> bool {
    &&& ascii(v.ident)
    &&& ((v.ident.len() == 1 && !is_upper(v.ident[0]) && !is_space(v.ident[0])) || (v.ident.len()
        >= 1 && forall|i: int|
        0 <= i < v.ident.len() ==> is_upper(#[trigger] v.ident[i]) && v.ident[i] != '_'
            && !is_space(v.ident[i])))
    &&& match v.subtext {
        None => true,
        Some(st) => ascii(st) && ((st.len() == 1 && st[0] != '{' && !is_space(st[0])) || (
        st.len() >= 2 && forall|i: int|
            0 <= i < st.len() ==> #[trigger] st[i] != '{' && st[i] != '}')),
    }
}

proof fn lemma_upper_run_of(u: Seq<char>, i: int, p: int)
    requires
        0 <= i <= p <= u.len(),
        forall|k: int| i <= k < p ==> is_upper(#[trigger] u[k]) && u[k] != '_' && !is_space(u[k]),
        p < u.len() ==> u[p] == '_',
    ensures
        upper_run(u, i) == p,
    decreases p - i,
{
    if i < p {
        lemma_upper_run_of(u, i + 1, p);
    }
}

proof fn lemma_scan_plain(w: Seq<char>, i: int, e: int, first: Option<int>, count: int)
    requires
        0 <= i <= e <= w.len(),
        forall|k: int| i <= k < e ==> #[trigger] w[k] != '{' && w[k] != '}',
    ensures
        delim_scan(w, '{', '}', i, first, count) == delim_scan(w, '{', '}', e, first, count),
    decreases e - i,
{
    if i < e {
        lemma_scan_plain(w, i + 1, e, first, count);
    }
}

/// Writing out a well-formed ASCII variable and reading the text back gives the variable.
pub proof fn lemma_well_formed_variable_reads_back(v: VarV)
    requires
        well_formed_var(v),
    ensures
        parse_variable(var_text(v)) == Parsed::Value(v),
{
    let u = var_text(v);
    let id = v.ident;
    let p = id.len() as int;
    lemma_byte_len_ascii(id);
    let single = id.len() == 1 && !is_upper(id[0]) && !is_space(id[0]);
    match v.subtext {
        None => {
            assert(u == id);
            if !single {
                assert(is_upper(id[p - 1]));
            }
            lemma_trim_unchanged(u);
            if !single {
                lemma_upper_run_of(u, 0, p);
            }
            assert(ident_end(u) == p);
            assert(u.take(p) =~= u);
        },
        Some(st) => {
            lemma_byte_len_ascii(st);
            if st.len() == 1 {
                assert(u =~= id + seq!['_'] + st);
                assert(u.last() == st[0]);
                lemma_trim_unchanged(u);
                if !single {
                    assert(is_upper(id[0]));
                    lemma_upper_run_of(u, 0, p);
                }
                assert(ident_end(u) == p);
                assert(u[p] == '_');
                assert(u[p + 1] == st[0]);
                assert(u.take(p) =~= id);
                assert(seq![u[p + 1]] =~= st);
            } else {
                assert(u =~= id + seq!['_', '{'] + st + seq!['}']);
                lemma_trim_unchanged(u);
                if !single {
                    assert(is_upper(id[0]));
                    lemma_upper_run_of(u, 0, p);
                }
                assert(ident_end(u) == p);
                assert(ascii(u)) by {
                    assert forall|i: int| 0 <= i < u.len() implies (#[trigger] u[i] as u32) < 0x80 by {
                        if i < p {
                            assert(u[i] == id[i]);
                        } else if p + 2 <= i < p + 2 + st.len() {
                            assert(u[i] == st[i - p - 2]);
                        }
                    }
                }
                let idx = p + 1;
                let w = u.skip(idx);
                lemma_char_index_at_ascii(u, idx);
                assert(w[0] == '{');
                let e: int = st.len() as int + 1;
                assert(w[e] == '}');
                lemma_scan_plain(w, 1, e, Some(0), 1);
                assert(forall|k: int| 1 <= k < e ==> w[k] == st[k - 1]);
                assert(delim_scan(w, '{', '}', 0, None, 0) == delim_scan(w, '{', '}', 1, Some(0), 1));
                assert(closing_delim(w, '{', '}') == DelimScan::Found(0, e));
                lemma_char_index_at_ascii(u, idx + 1);
                lemma_char_index_at_ascii(u, e + idx);
                assert(u.subrange(idx + 1, e + idx) =~= st);
                assert(u.take(p) =~= id);
            }
        },
    }
}

/// Cuts out the subscript group whose `{` stands at character `idx` of `t`, as
/// `brace_subtext` says.
pub fn read_brace_subtext(t: &str, idx: usize) -> (r: Option<String>)
    requires
        4 * t@.len() <= usize::MAX,
        idx < t@.len(),
    ensures
        match brace_subtext(t@, idx as int) {
            Some(sub) => r matches Some(x) && x@ == sub,
            None => r is None,
        },
{
    let n = t.unicode_len();
    let j = match index_at_byte(t, idx) {
        Some(j) => j,
        None => {
            return None;
        },
    };
    proof {
        lemma_char_index_at(t@, idx as int);
    }
    let rest = t.substring_char(j, n);
    assert(rest@ =~= t@.skip(j as int));
    proof {
        lemma_closing_delim_positions(rest@, '{', '}');
    }
    let range = match scan_group(rest, '{', '}') {
        Some(Ok(range)) => range,
        _ => {
            return None;
        },
    };
    let x = match index_at_byte(t, range.start + idx + 1) {
        Some(x) => x,
        None => {
            return None;
        },
    };
    let y = match index_at_byte(t, range.end + idx) {
        Some(y) => y,
        None => {
            return None;
        },
    };
    proof {
        lemma_char_index_at(t@, range.start + idx + 1);
        lemma_char_index_at(t@, range.end + idx);
    }
    if x > y {
        return None;
    }
    Some(string_of(t.substring_char(x, y)))
}

impl Variable {
    /// The number of bytes this variable took in the text it was read from.
    pub fn len(&self) -> (r: usize)
        requires
            var_len(self@) <= usize::MAX,
        ensures
            r == var_len(self@),
    {
        let n = str_len(self.ident.as_str());
        match &self.subtext {
            Some(st) => {
                let m = str_len(st.as_str());
                if m != 1 {
                    n + m + 3
                } else {
                    n + m + 1
                }
            },
            None => n,
        }
    }

    /// Whether `len` is zero.
    pub fn is_empty(&self) -> (r: bool)
        requires
            var_len(self@) <= usize::MAX,
        ensures
            r == (var_len(self@) == 0),
    {
        self.len() == 0
    }

    /// Whether two variables have the same identifier and subscript.
    pub fn same_as(&self, other: &Variable) -> (r: bool)
        ensures
            r == (self@ == other@),
    {
        let same_ident = self.ident == other.ident;
        let same_sub = match (&self.subtext, &other.subtext) {
            (Some(a), Some(b)) => *a == *b,
            (None, None) => true,
            _ => false,
        };
        same_ident && same_sub
    }

    /// A copy of this variable.
    pub fn duplicate(&self) -> (r: Variable)
        ensures
            r@ == self@,
    {
        Variable {
            ident: self.ident.clone(),
            subtext: match &self.subtext {
                Some(st) => Some(st.clone()),
                None => None,
            },
        }
    }

    /// Appends how this variable is written out to `out`.
    pub fn write_to(&self, out: &mut String)
        ensures
            final(out)@ == old(out)@ + var_text(self@),
    {
        push_str(out, self.ident.as_str());
        match &self.subtext {
            Some(sub) => {
                if more_than_one_byte(sub.as_str()) {
                    push_char(out, '_');
                    push_char(out, '{');
                    push_str(out, sub.as_str());
                    push_char(out, '}');
                } else {
                    push_char(out, '_');
                    push_str(out, sub.as_str());
                }
            },
            None => {},
        }
        proof {
            let v = self@;
            match v.subtext {
                Some(sub) => {
                    if byte_len(sub) > 1 {
                        assert(final(out)@ =~= old(out)@ + var_text(v));
                    } else {
                        assert(final(out)@ =~= old(out)@ + var_text(v));
                    }
                },
                None => {},
            }
        }
    }

    /// How this variable is written out.
    pub fn to_string(&self) -> (r: String)
        ensures
            r@ == var_text(self@),
    {
        let mut out = String::new();
        self.write_to(&mut out);
        assert(out@ =~= var_text(self@));
        out
    }

    /// Reads a variable from `s`, ignoring white space around it.
    pub fn parse_str(s: &str) -> (r: Result<Variable, ParseError>)
        requires
            !(parse_variable(s@) is Aborts),
            4 * s@.len() <= usize::MAX,
        ensures
            match parse_variable(s@) {
                Parsed::Value(v) => r matches Ok(x) && x@ == v,
                Parsed::Refused(e) => r == Err::<Variable, ParseError>(e),
                Parsed::Aborts => false,
            },
    {
        match Variable::read(s) {
            Parsed::Value(v) => Ok(v),
            Parsed::Refused(e) => Err(e),
            Parsed::Aborts => {
                proof {
                    assert(false);
                }
                Err(ParseError::InvalidVariable)
            },
        }
    }

    /// Reads a variable from `s` as `parse_str` does, reporting as `Aborts` the text on which
    /// reading would stop the program (an unclosed subscript group).
    pub fn read(s: &str) -> (r: Parsed<Variable>)
        requires
            4 * s@.len() <= usize::MAX,
        ensures
            r.agrees(parse_variable(s@)),
    {
        let t = trim_str(s);
        let n = t.unicode_len();
        if n == 0 {
            return Parsed::Refused(ParseError::InvalidVariable);
        }
        let c0 = t.get_char(0);
        let mut p: usize = 1;
        if char_is_uppercase(c0) {
            proof {
                lemma_trim_facts(s@);
            }
            let ghost tv = t@;
            assert(c0 != '_');
            p = 0;
            while p < n && char_is_uppercase(t.get_char(p)) && t.get_char(p) != '_'
                && !crate::text::char_is_whitespace(t.get_char(p))
                invariant
                    n == tv.len(),
                    tv == t@,
                    p <= n,
                    upper_run(tv, 0) == upper_run(tv, p as int),
                decreases n - p,
            {
                p = p + 1;
            }
        }
        assert(p as int == ident_end(t@));
        let ident = string_of(t.substring_char(0, p));
        let mut subtext: Option<String> = None;
        if p < n && t.get_char(p) == '_' && p + 1 < n {
            let idx = p + 1;
            let ch = t.get_char(idx);
            if ch == '{' {
                proof {
                    lemma_trim_facts(s@);
                }
                match read_brace_subtext(t, idx) {
                    Some(sub) => {
                        subtext = Some(sub);
                    },
                    None => {
                        return Parsed::Aborts;
                    },
                }
            } else {
                let mut one = String::new();
                push_char(&mut one, ch);
                subtext = Some(one);
            }
        }
        let v = Variable { ident, subtext };
        assert(v@.ident =~= t@.take(p as int));
        Parsed::Value(v)
    }
}

} // verus!
