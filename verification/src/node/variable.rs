//! Variables of the first term representation: a word with an optional subscript.

use vstd::prelude::*;
use crate::error::ParseError;
use crate::text::{
    byte_len, char_index_at, char_is_uppercase, char_is_whitespace, char_width, is_space, is_upper,
    lemma_byte_len_concat, lemma_byte_len_single, lemma_byte_len_split, lemma_char_index_at,
    lemma_trim_facts, push_char, str_len, string_of, trim, trim_offset, trim_str,
};
use crate::utils::{closing_delim, DelimScan};
use crate::ast::node::variable::{
    VarV, brace_subtext, lemma_byte_len_subrange, lemma_upper_run_bounds, read_brace_subtext,
    upper_run,
};

verus! {

/// A variable such as `x`, `foo`, `TRUE` or `x_{12}`.
#[derive(Debug)]
pub struct Variable {
    pub ident: String,
    pub subtext: Option<String>,
}

impl View for Variable {
    type V = VarV;

    open spec fn view(&self) -> VarV {
        VarV {
            ident: self.ident@,
            subtext: match self.subtext {
                Some(st) => Some(st@),
                None => None,
            },
        }
    }
}

/// The length this representation gives a variable: the identifier, and for a subscript of
/// one character that character, else the subscript and two more.
pub open spec fn word_var_len(v: VarV) -> nat {
    byte_len(v.ident) + match v.subtext {
        Some(st) => if byte_len(st) != 1 {
            byte_len(st) + 2
        } else {
            byte_len(st)
        },
        None => 0,
    }
}

/// The end of the run of characters of `t` from `i` on that are neither `_` nor white space.
pub open spec fn word_run(t: Seq<char>, i: int) -> int
    decreases t.len() - i,
{
    if 0 <= i < t.len() && t[i] != '_' && !is_space(t[i]) {
        word_run(t, i + 1)
    } else {
        i
    }
}

/// Where the identifier read from the trimmed text `t` ends: a run of uppercase characters if
/// `t` starts with one, else a run of characters up to the first `_` or white space.
pub open spec fn word_ident_end(t: Seq<char>) -> int {
    if t.len() > 0 && is_upper(t[0]) {
        upper_run(t, 0)
    } else {
        word_run(t, 0)
    }
}

/// Reading a variable from `s`: white space around it dropped, the identifier as
/// `word_ident_end` says, then after `_` a subscript of one character or a group in braces.
/// `None` where an unclosed brace group stops the program.
pub open spec fn parse_word_variable(s: Seq<char>) -> Option<VarV> {
    let t = trim(s);
    let p = word_ident_end(t);
    let ident = t.take(p);
    if p < t.len() && t[p] == '_' && p + 1 < t.len() {
        let idx = p + 1;
        if t[idx] == '{' {
            match brace_subtext(t, idx) {
                Some(sub) => Some(VarV { ident, subtext: Some(sub) }),
                None => None,
            }
        } else {
            Some(VarV { ident, subtext: Some(seq![t[idx]]) })
        }
    } else {
        Some(VarV { ident, subtext: None })
    }
}

/// A run of word characters stays within the text and holds neither `_` nor white space.
pub proof fn lemma_word_run_bounds(t: Seq<char>, i: int)
    requires
        0 <= i <= t.len(),
    ensures
        i <= word_run(t, i) <= t.len(),
        forall|k: int| i <= k < word_run(t, i) ==> t[k] != '_' && !is_space(t[k]),
    decreases t.len() - i,
{
    if i < t.len() && t[i] != '_' && !is_space(t[i]) {
        lemma_word_run_bounds(t, i + 1);
    }
}

/// A variable read from text takes at most three bytes for each byte of the text.
pub proof fn lemma_word_variable_len(s: Seq<char>)
    ensures
        parse_word_variable(s) matches Some(v) ==> word_var_len(v) <= 3 * byte_len(s),
{
    lemma_trim_facts(s);
    let t = trim(s);
    let off = trim_offset(s);
    lemma_byte_len_subrange(s, off, off + t.len());
    assert(s.subrange(off, off + t.len()) == t);
    lemma_word_run_bounds(t, 0);
    if t.len() > 0 {
        lemma_upper_run_bounds(t, 0);
    }
    let p = word_ident_end(t);
    assert(0 <= p <= t.len());
    lemma_byte_len_subrange(t, 0, p);
    assert(t.subrange(0, p) == t.take(p));
    if p < t.len() && t[p] == '_' && p + 1 < t.len() {
        let idx = p + 1;
        lemma_byte_len_split(t, p + 2);
        let head = t.take(p + 2);
        assert(head =~= t.take(p) + seq![t[p], t[idx]]);
        lemma_byte_len_concat(t.take(p), seq![t[p], t[idx]]);
        assert(seq![t[p], t[idx]].drop_first() =~= seq![t[idx]]);
        lemma_byte_len_single(t[p]);
        lemma_byte_len_single(t[idx]);
        assert(byte_len(seq![t[p], t[idx]]) == char_width(t[p]) + byte_len(seq![t[idx]]));
        if t[idx] == '{' {
            match brace_subtext(t, idx) {
                Some(sub) => {
                    let j = char_index_at(t, idx)->0;
                    match closing_delim(t.skip(j), '{', '}') {
                        DelimScan::Found(a, b) => {
                            lemma_char_index_at(t, a + idx + 1);
                            lemma_char_index_at(t, b + idx);
                            let x = char_index_at(t, a + idx + 1)->0;
                            let y = char_index_at(t, b + idx)->0;
                            lemma_byte_len_subrange(t, x, y);
                        },
                        _ => {},
                    }
                },
                None => {},
            }
        }
    }
}

impl Variable {
    /// The length this representation gives the variable.
    pub fn len(&self) -> (r: usize)
        requires
            word_var_len(self@) <= usize::MAX,
        ensures
            r == word_var_len(self@),
    {
        let n = str_len(self.ident.as_str());
        match &self.subtext {
            Some(st) => {
                let m = str_len(st.as_str());
                if m != 1 {
                    n + m + 2
                } else {
                    n + m
                }
            },
            None => n,
        }
    }

    /// Whether `len` is zero.
    pub fn is_empty(&self) -> (r: bool)
        requires
            word_var_len(self@) <= usize::MAX,
        ensures
            r == (word_var_len(self@) == 0),
    {
        self.len() == 0
    }

    /// Reads a variable from `s`, ignoring white space around it. Reading never fails; it stops
    /// the program on an unclosed subscript group, which `requires` leaves out.
    pub fn parse_str(s: &str) -> (r: Result<Variable, ParseError>)
        requires
            parse_word_variable(s@) is Some,
            4 * s@.len() <= usize::MAX,
        ensures
            r matches Ok(x) && x@ == parse_word_variable(s@)->0,
    {
        let t = trim_str(s);
        let n = t.unicode_len();
        let ghost tv = t@;
        let mut p: usize = 0;
        if n > 0 && char_is_uppercase(t.get_char(0)) {
            while p < n && char_is_uppercase(t.get_char(p)) && t.get_char(p) != '_'
                && !char_is_whitespace(t.get_char(p))
                invariant
                    n == tv.len(),
                    tv == t@,
                    p <= n,
                    upper_run(tv, 0) == upper_run(tv, p as int),
                decreases n - p,
            {
                p = p + 1;
            }
        } else {
            while p < n && t.get_char(p) != '_' && !char_is_whitespace(t.get_char(p))
                invariant
                    n == tv.len(),
                    tv == t@,
                    p <= n,
                    word_run(tv, 0) == word_run(tv, p as int),
                decreases n - p,
            {
                p = p + 1;
            }
        }
        assert(p as int == word_ident_end(t@));
        let ident = string_of(t.substring_char(0, p));
        let mut subtext: Option<String> = None;
        if p < n && t.get_char(p) == '_' && p + 1 < n {
            let idx = p + 1;
            let ch = t.get_char(idx);
            if ch == '{' {
                proof {
                    lemma_trim_facts(s@);
                }
                match read_brace_subtext(t, idx) {
                    Some(sub) => {
                        subtext = Some(sub);
                    },
                    None => {
                        assert(false);
                    },
                }
            } else {
                let mut one = String::new();
                push_char(&mut one, ch);
                subtext = Some(one);
            }
        }
        let v = Variable { ident, subtext };
        assert(v@.ident =~= t@.take(p as int));
        Ok(v)
    }
}

} // verus!
