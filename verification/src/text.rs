//! The textual boundary: tokenizing and parsing whitespace-separated
//! concatenative source into heap-resident terms, and rendering terms back.
//! `[` and `]` delimit a quotation and must balance; tokens matching a
//! primitive name become primitives; a parenthesized lower-case word is an
//! annotation; every other token is a symbol.

use vstd::prelude::*;

use crate::atom::{nil_leaves, njoin, Atom, Opcode};
use crate::error::Error;
use crate::heap::{lemma_extends_leaves, Heap, ObjView, Pointer};
use crate::machine::seq_leaves;
use crate::strutil::str_eq;

verus! {

/// The canonical token of a primitive.
pub open spec fn opcode_token(op: Opcode) -> Seq<char> {
    match op {
        Opcode::App => "Apply"@,
        Opcode::Box => "Box"@,
        Opcode::Cat => "Concatenate"@,
        Opcode::Copy => "Copy"@,
        Opcode::Drop => "Drop"@,
        Opcode::Swap => "Swap"@,
        Opcode::Fix => "Fix"@,
        Opcode::Prop => "Prop"@,
        Opcode::Forall => "Forall"@,
    }
}

/// The primitive a token names, if any.
pub open spec fn token_opcode(w: Seq<char>) -> Option<Opcode> {
    if w == "Apply"@ {
        Some(Opcode::App)
    } else if w == "Box"@ {
        Some(Opcode::Box)
    } else if w == "Concatenate"@ {
        Some(Opcode::Cat)
    } else if w == "Copy"@ {
        Some(Opcode::Copy)
    } else if w == "Drop"@ {
        Some(Opcode::Drop)
    } else if w == "Swap"@ {
        Some(Opcode::Swap)
    } else if w == "Fix"@ {
        Some(Opcode::Fix)
    } else if w == "Prop"@ {
        Some(Opcode::Prop)
    } else if w == "Forall"@ {
        Some(Opcode::Forall)
    } else {
        None
    }
}

/// Renders a primitive as its canonical token.
pub fn opcode_text(op: Opcode) -> (r: &'static str)
    ensures
        r@ == opcode_token(op),
{
    match op {
        Opcode::App => "Apply",
        Opcode::Box => "Box",
        Opcode::Cat => "Concatenate",
        Opcode::Copy => "Copy",
        Opcode::Drop => "Drop",
        Opcode::Swap => "Swap",
        Opcode::Fix => "Fix",
        Opcode::Prop => "Prop",
        Opcode::Forall => "Forall",
    }
}

/// Parses a token as a primitive name.
pub fn parse_opcode(w: &str) -> (r: Option<Opcode>)
    ensures
        r == token_opcode(w@),
{
    if str_eq(w, "Apply") {
        Some(Opcode::App)
    } else if str_eq(w, "Box") {
        Some(Opcode::Box)
    } else if str_eq(w, "Concatenate") {
        Some(Opcode::Cat)
    } else if str_eq(w, "Copy") {
        Some(Opcode::Copy)
    } else if str_eq(w, "Drop") {
        Some(Opcode::Drop)
    } else if str_eq(w, "Swap") {
        Some(Opcode::Swap)
    } else if str_eq(w, "Fix") {
        Some(Opcode::Fix)
    } else if str_eq(w, "Prop") {
        Some(Opcode::Prop)
    } else if str_eq(w, "Forall") {
        Some(Opcode::Forall)
    } else {
        None
    }
}

/// The decimal digits of a number, most significant first.
pub open spec fn dec_digits(n: nat) -> Seq<char>
    decreases n,
{
    if n < 10 {
        seq![digit_char(n)]
    } else {
        dec_digits(n / 10) + seq![digit_char(n % 10)]
    }
}

/// The character of one decimal digit.
pub open spec fn digit_char(d: nat) -> char {
    if d == 0 {
        '0'
    } else if d == 1 {
        '1'
    } else if d == 2 {
        '2'
    } else if d == 3 {
        '3'
    } else if d == 4 {
        '4'
    } else if d == 5 {
        '5'
    } else if d == 6 {
        '6'
    } else if d == 7 {
        '7'
    } else if d == 8 {
        '8'
    } else {
        '9'
    }
}

/// The rendering of a numeric literal: a minus sign for negative values,
/// then the decimal digits of the magnitude.
pub open spec fn dec_text(n: int) -> Seq<char> {
    if n < 0 {
        seq!['-'] + dec_digits((-n) as nat)
    } else {
        dec_digits(n as nat)
    }
}

fn digit_text(d: u64) -> (r: &'static str)
    requires
        d < 10,
    ensures
        r@ == seq![digit_char(d as nat)],
{
    let r: &'static str = if d == 0 {
        "0"
    } else if d == 1 {
        "1"
    } else if d == 2 {
        "2"
    } else if d == 3 {
        "3"
    } else if d == 4 {
        "4"
    } else if d == 5 {
        "5"
    } else if d == 6 {
        "6"
    } else if d == 7 {
        "7"
    } else if d == 8 {
        "8"
    } else {
        "9"
    };
    proof {
        reveal_strlit("0");
        reveal_strlit("1");
        reveal_strlit("2");
        reveal_strlit("3");
        reveal_strlit("4");
        reveal_strlit("5");
        reveal_strlit("6");
        reveal_strlit("7");
        reveal_strlit("8");
        reveal_strlit("9");
    }
    r
}

fn push_dec(buf: &mut String, n: u64)
    ensures
        final(buf)@ == old(buf)@ + dec_digits(n as nat),
    decreases n,
{
    if n >= 10 {
        push_dec(buf, n / 10);
        let d = digit_text(n % 10);
        buf.append(d);
        proof {
            assert(buf@ =~= old(buf)@ + dec_digits(n as nat));
        }
    } else {
        let d = digit_text(n);
        buf.append(d);
    }
}

/// Renders a row of leaves: tokens joined by single spaces, quotations
/// bracketed, a lone `Empty` leaf rendered as nothing.
pub open spec fn render_leaves(s: Seq<Atom>) -> Seq<char>
    decreases s, s.len(),
{
    if s.len() == 0 || s == nil_leaves() {
        Seq::empty()
    } else if s.len() == 1 {
        render_atom(s[0])
    } else {
        render_atom(s[0]) + seq![' '] + render_leaves(s.skip(1))
    }
}

/// Renders one leaf.
pub open spec fn render_atom(a: Atom) -> Seq<char>
    decreases a, 0nat,
{
    match a {
        Atom::Nil => Seq::empty(),
        Atom::Lit(n) => dec_text(n),
        Atom::Sym(w) => w,
        Atom::Ann(w) => seq!['('] + w + seq![')'],
        Atom::Op(op) => opcode_token(op),
        Atom::Quo(q) => seq!['['] + render_leaves(q) + seq![']'],
    }
}


impl Heap {
    /// Renders a term onto `buf`: the inverse of parsing. Tokens are joined
    /// by single spaces, quotations render bracketed, primitives render as
    /// their canonical token, and a trailing `Empty` tail is omitted.
    pub fn quote(&self, root: Pointer, buf: &mut String) -> (r: Result<(), Error>)
        requires
            self.inv(),
        ensures
            match r {
                Ok(()) => self.valid(root) && final(buf)@ == old(buf)@ + render_leaves(
                    self.leaves(root),
                ),
                Err(e) => e == Error::Null && !self.valid(root) && final(buf)@ == old(buf)@,
            },
        decreases self.rank(root),
    {
        let obj: (Option<Pointer>, Option<(Pointer, Pointer)>) = match self.get_ref_kind(root) {
            Ok(k) => k,
            Err(e) => {
                return Err(e);
            },
        };
        proof {
            crate::heap::lemma_leaves_unfold(*self, root);
            assert(self.slot_wf(root.idx()));
        }
        match obj {
            (Some(body), None) => {
                // a quotation
                buf.append("[");
                let ghost mid0 = buf@;
                match self.quote(body, buf) {
                    Ok(()) => {},
                    Err(_) => {
                        proof {
                            assert(false);
                        }
                        return Err(Error::Null);
                    },
                }
                buf.append("]");
                proof {
                    reveal_strlit("[");
                    reveal_strlit("]");
                    assert(buf@ =~= old(buf)@ + render_atom(
                        Atom::Quo(self.leaves(body)),
                    ));
                    assert(self.leaves(root) =~= seq![Atom::Quo(self.leaves(body))]);
                    assert(render_leaves(self.leaves(root)) == render_atom(
                        Atom::Quo(self.leaves(body)),
                    )) by {
                        crate::heap::lemma_leaves_unfold(*self, root);
                        crate::heap::lemma_leaves_clean(*self, root);
                    }
                }
                Ok(())
            },
            (None, Some((head, tail))) => {
                // a concatenation: the head is a single leaf, the tail is
                // never `Empty`
                match self.quote(head, buf) {
                    Ok(()) => {},
                    Err(_) => {
                        proof {
                            assert(false);
                        }
                        return Err(Error::Null);
                    },
                }
                let tail_is_id = match self.is_id(tail) {
                    Ok(b) => b,
                    Err(_) => {
                        proof {
                            assert(false);
                        }
                        return Err(Error::Null);
                    },
                };
                if !tail_is_id {
                    buf.append(" ");
                    match self.quote(tail, buf) {
                        Ok(()) => {},
                        Err(_) => {
                            proof {
                                assert(false);
                            }
                            return Err(Error::Null);
                        },
                    }
                }
                proof {
                    reveal_strlit(" ");
                    let la = self.leaves(head);
                    let lb = self.leaves(tail);
                    crate::heap::lemma_leaves_unfold(*self, head);
                    crate::heap::lemma_leaves_clean(*self, head);
                    crate::heap::lemma_leaves_clean(*self, tail);
                    assert(la.len() == 1);
                    assert(self.leaves(root) == la + lb);
                    assert((la + lb)[0] == la[0]);
                    assert((la + lb).skip(1) =~= lb);
                    assert((la + lb).len() >= 2);
                    assert(la + lb != nil_leaves()) by {
                        assert((la + lb).len() != nil_leaves().len());
                    }
                    assert(render_leaves(la + lb) == render_atom(la[0]) + seq![' ']
                        + render_leaves(lb));
                    assert(render_leaves(la) == render_atom(la[0])) by {
                        assert(la != nil_leaves());
                    }
                    assert(buf@ =~= old(buf)@ + render_leaves(self.leaves(root)));
                }
                Ok(())
            },
            (None, None) => {
                // a leaf
                let is_id = match self.is_id(root) {
                    Ok(b) => b,
                    Err(_) => {
                        proof {
                            assert(false);
                        }
                        return Err(Error::Null);
                    },
                };
                if is_id {
                    proof {
                        assert(render_leaves(self.leaves(root)) =~= Seq::<char>::empty());
                        assert(buf@ =~= old(buf)@);
                    }
                    return Ok(());
                }
                match self.get_number(root) {
                    Ok(value) => {
                        proof {
                            assert(self.leaves(root) =~= seq![Atom::Lit(value as int)]);
                            assert(self.leaves(root) != nil_leaves()) by {
                                if self.leaves(root) == nil_leaves() {
                                    assert(self.leaves(root)[0] == Atom::Nil);
                                }
                            }
                            assert(self.leaves(root).len() == 1);
                            assert(render_leaves(self.leaves(root)) == render_atom(
                                Atom::Lit(value as int),
                            ));
                            assert(render_atom(Atom::Lit(value as int)) == dec_text(
                                value as int,
                            ));
                        }
                        if value < 0 {
                            buf.append("-");
                            let magnitude: u64 = ((-(value + 1)) as u64) + 1;
                            push_dec(buf, magnitude);
                            proof {
                                reveal_strlit("-");
                                assert("-"@ =~= seq!['-']);
                                assert(magnitude as nat == (-(value as int)) as nat);
                                assert(dec_text(value as int) == seq!['-'] + dec_digits(
                                    magnitude as nat,
                                ));
                                assert(buf@ =~= (old(buf)@ + "-"@) + dec_digits(
                                    magnitude as nat,
                                ));
                                assert((old(buf)@ + "-"@) + dec_digits(magnitude as nat)
                                    =~= old(buf)@ + (seq!['-'] + dec_digits(magnitude as nat)));
                                assert(render_leaves(self.leaves(root)) == seq!['-'] + dec_digits(
                                    magnitude as nat,
                                ));
                                assert(buf@ == old(buf)@ + render_leaves(self.leaves(root)));
                            }
                        } else {
                            push_dec(buf, value as u64);
                            proof {
                                assert((value as u64) as nat == (value as int) as nat);
                                assert(dec_text(value as int) == dec_digits(
                                    (value as u64) as nat,
                                ));
                                assert(buf@ =~= old(buf)@ + dec_digits((value as u64) as nat));
                                assert(render_leaves(self.leaves(root)) == dec_digits(
                                    (value as u64) as nat,
                                ));
                                assert(buf@ == old(buf)@ + render_leaves(self.leaves(root)));
                            }
                        }
                        return Ok(());
                    },
                    Err(_) => {},
                }
                match self.get_word(root) {
                    Ok(w) => {
                        buf.append(w.as_str());
                        proof {
                            assert(self.leaves(root) =~= seq![Atom::Sym(w@)]);
                            assert(self.leaves(root) != nil_leaves()) by {
                                if self.leaves(root) == nil_leaves() {
                                    assert(self.leaves(root)[0] == Atom::Nil);
                                }
                            }
                            assert(render_leaves(self.leaves(root)) == render_atom(
                                Atom::Sym(w@),
                            ));
                            assert(buf@ =~= old(buf)@ + render_leaves(self.leaves(root)));
                        }
                        return Ok(());
                    },
                    Err(_) => {},
                }
                match self.get_hint(root) {
                    Ok(w) => {
                        buf.append("(");
                        buf.append(w.as_str());
                        buf.append(")");
                        proof {
                            reveal_strlit("(");
                            reveal_strlit(")");
                            assert(self.leaves(root) =~= seq![Atom::Ann(w@)]);
                            assert(self.leaves(root) != nil_leaves()) by {
                                if self.leaves(root) == nil_leaves() {
                                    assert(self.leaves(root)[0] == Atom::Nil);
                                }
                            }
                            assert(render_leaves(self.leaves(root)) == render_atom(
                                Atom::Ann(w@),
                            ));
                            assert("("@ =~= seq!['(']);
                            assert(")"@ =~= seq![')']);
                            assert(buf@ =~= old(buf)@ + render_leaves(self.leaves(root)));
                        }
                        return Ok(());
                    },
                    Err(_) => {},
                }
                match self.get_opcode(root) {
                    Ok(op) => {
                        let tok = opcode_text(op);
                        buf.append(tok);
                        proof {
                            assert(self.leaves(root) =~= seq![Atom::Op(op)]);
                            assert(self.leaves(root) != nil_leaves()) by {
                                if self.leaves(root) == nil_leaves() {
                                    assert(self.leaves(root)[0] == Atom::Nil);
                                }
                            }
                            assert(render_leaves(self.leaves(root)) == render_atom(Atom::Op(op)));
                            assert(buf@ =~= old(buf)@ + render_leaves(self.leaves(root)));
                        }
                        return Ok(());
                    },
                    Err(_) => {
                        proof {
                            assert(false);
                        }
                        return Err(Error::Null);
                    },
                }
            },
            _ => {
                proof {
                    assert(false);
                }
                Err(Error::Null)
            },
        }
    }

    /// Classifies a node for rendering: the body of a quotation, the children
    /// of a concatenation, or neither for a leaf.
    fn get_ref_kind(&self, p: Pointer) -> (r: Result<
        (Option<Pointer>, Option<(Pointer, Pointer)>),
        Error,
    >)
        ensures
            match r {
                Ok(k) => self.valid(p) && match k {
                    (Some(b), None) => self.obj(p) == ObjView::Block(b),
                    (None, Some(pair)) => self.obj(p) == ObjView::Sequence(pair.0, pair.1),
                    (None, None) => !(self.obj(p) is Block) && !(self.obj(p) is Sequence),
                    _ => false,
                },
                Err(e) => e == Error::Null && !self.valid(p),
            },
    {
        match self.get_block_body(p) {
            Ok(b) => Ok((Some(b), None)),
            Err(Error::Null) => Err(Error::Null),
            Err(_) => match self.get_sequence_head(p) {
                Ok(a) => match self.get_sequence_tail(p) {
                    Ok(b) => Ok((None, Some((a, b)))),
                    Err(_) => Err(Error::Null),
                },
                Err(_) => Ok((None, None)),
            },
        }
    }
}


/// A source token: an opening bracket, a closing bracket, or a word.
pub ghost enum Tok {
    Open,
    Close,
    Word(Seq<char>),
}

/// Whitespace separates tokens.
pub open spec fn is_space_char(c: char) -> bool {
    c == ' ' || c == '\t' || c == '\n' || c == '\r'
}

/// Brackets and whitespace end a word.
pub open spec fn is_break_char(c: char) -> bool {
    is_space_char(c) || c == '[' || c == ']'
}

/// A name character of an annotation: a lower-case letter, a digit, or a
/// hyphen.
pub open spec fn is_name_char(c: char) -> bool {
    ||| ('a' as u32) <= (c as u32) && (c as u32) <= ('z' as u32)
    ||| ('0' as u32) <= (c as u32) && (c as u32) <= ('9' as u32)
    ||| c == '-'
}

/// The length of the word starting the text.
pub open spec fn word_len(s: Seq<char>) -> nat
    decreases s.len(),
{
    if s.len() == 0 || is_break_char(s[0]) {
        0
    } else {
        1 + word_len(s.skip(1))
    }
}

/// The tokens of a text: single-character bracket tokens, and maximal runs
/// of non-break characters as words.
pub open spec fn spec_tokenize(s: Seq<char>) -> Seq<Tok>
    decreases s.len(),
    via spec_tokenize_decreases
{
    if s.len() == 0 {
        seq![]
    } else if is_space_char(s[0]) {
        spec_tokenize(s.skip(1))
    } else if s[0] == '[' {
        seq![Tok::Open] + spec_tokenize(s.skip(1))
    } else if s[0] == ']' {
        seq![Tok::Close] + spec_tokenize(s.skip(1))
    } else {
        seq![Tok::Word(s.take(word_len(s) as int))] + spec_tokenize(s.skip(word_len(s) as int))
    }
}

/// A word never runs past the end of the text.
pub proof fn lemma_word_len_bound(s: Seq<char>)
    ensures
        word_len(s) <= s.len(),
    decreases s.len(),
{
    if s.len() > 0 && !is_break_char(s[0]) {
        lemma_word_len_bound(s.skip(1));
    }
}

#[via_fn]
proof fn spec_tokenize_decreases(s: Seq<char>) {
    if s.len() > 0 && !is_space_char(s[0]) && s[0] != '[' && s[0] != ']' {
        assert(word_len(s) == 1 + word_len(s.skip(1)));
        lemma_word_len_bound(s);
        assert(s.skip(word_len(s) as int).len() < s.len());
    }
}

/// A token of the shape `(name)`.
pub open spec fn is_hint_token(w: Seq<char>) -> bool {
    &&& w.len() >= 3
    &&& w[0] == '('
    &&& w[w.len() - 1] == ')'
    &&& forall|i: int| 1 <= i < w.len() - 1 ==> is_name_char(#[trigger] w[i])
}

/// The leaf a word token denotes: a primitive if it matches a primitive
/// name, an annotation if it is a parenthesized name, a symbol otherwise.
pub open spec fn tok_atom(w: Seq<char>) -> Atom {
    match token_opcode(w) {
        Some(op) => Atom::Op(op),
        None => if is_hint_token(w) {
            Atom::Ann(w.subrange(1, w.len() - 1))
        } else {
            Atom::Sym(w)
        },
    }
}

/// The leaves of a finished group: an empty group is the `Empty` term.
pub open spec fn wrap(q: Seq<Atom>) -> Seq<Atom> {
    if q.len() == 0 {
        nil_leaves()
    } else {
        q
    }
}

/// One token applied to the group stack. `None` is a bracket mismatch.
pub open spec fn parse_tok(stack: Seq<Seq<Atom>>, t: Tok) -> Option<Seq<Seq<Atom>>>
    recommends
        stack.len() >= 1,
{
    match t {
        Tok::Open => Some(stack.push(seq![])),
        Tok::Close => if stack.len() >= 2 {
            Some(
                stack.drop_last().update(
                    stack.len() - 2,
                    stack[stack.len() - 2].push(Atom::Quo(wrap(stack.last()))),
                ),
            )
        } else {
            None
        },
        Tok::Word(w) => Some(
            stack.update(stack.len() - 1, stack.last().push(tok_atom(w))),
        ),
    }
}

/// All tokens applied in order.
pub open spec fn parse_toks(stack: Seq<Seq<Atom>>, toks: Seq<Tok>) -> Option<Seq<Seq<Atom>>>
    decreases toks.len(),
{
    if toks.len() == 0 {
        Some(stack)
    } else {
        match parse_tok(stack, toks[0]) {
            None => None,
            Some(st) => parse_toks(st, toks.skip(1)),
        }
    }
}

/// The leaves a well-formed text parses to; `None` on unbalanced brackets.
pub open spec fn spec_parse(s: Seq<char>) -> Option<Seq<Atom>> {
    match parse_toks(seq![seq![]], spec_tokenize(s)) {
        Some(st) => if st.len() == 1 {
            Some(wrap(st[0]))
        } else {
            None
        },
        None => None,
    }
}

/// Splitting a token row splits the fold.
proof fn lemma_parse_toks_app(stack: Seq<Seq<Atom>>, a: Seq<Tok>, b: Seq<Tok>)
    ensures
        parse_toks(stack, a + b) == (match parse_toks(stack, a) {
            None => None,
            Some(st) => parse_toks(st, b),
        }),
    decreases a.len(),
{
    if a.len() == 0 {
        assert(a + b =~= b);
    } else {
        assert((a + b)[0] == a[0]);
        assert((a + b).skip(1) =~= a.skip(1) + b);
        match parse_tok(stack, a[0]) {
            None => {},
            Some(st) => {
                lemma_parse_toks_app(st, a.skip(1), b);
            },
        }
    }
}


/// An executable source token.
pub enum Token {
    Open,
    Close,
    Word(String),
}

impl Token {
    /// The abstract token.
    pub open spec fn view(&self) -> Tok {
        match self {
            Token::Open => Tok::Open,
            Token::Close => Tok::Close,
            Token::Word(w) => Tok::Word(w@),
        }
    }
}

/// The abstract tokens of a token row.
pub open spec fn toks_view(ts: Seq<Token>) -> Seq<Tok> {
    Seq::new(ts.len(), |i: int| ts[i].view())
}

/// With all characters up to `k` inside the word and a break (or the end) at
/// `k`, the word is exactly `k` characters long.
proof fn lemma_word_len_exact(s: Seq<char>, k: int)
    requires
        0 <= k <= s.len(),
        forall|m: int| 0 <= m < k ==> !is_break_char(#[trigger] s[m]),
        k == s.len() || is_break_char(s[k]),
    ensures
        word_len(s) == k,
    decreases k,
{
    if k == 0 {
    } else {
        assert(!is_break_char(s[0]));
        assert(forall|m: int| 0 <= m < k - 1 ==> s.skip(1)[m] == s[m + 1]);
        lemma_word_len_exact(s.skip(1), k - 1);
    }
}

/// Splits a text into its tokens.
pub fn tokenize(src: &str) -> (r: Vec<Token>)
    ensures
        toks_view(r@) == spec_tokenize(src@),
{
    let n = src.unicode_len();
    let mut out: Vec<Token> = Vec::new();
    let mut i: usize = 0;
    proof {
        assert(src@.skip(0) =~= src@);
        assert(toks_view(out@) =~= Seq::<Tok>::empty());
        assert(Seq::<Tok>::empty() + spec_tokenize(src@) =~= spec_tokenize(src@));
    }
    while i < n
        invariant
            i <= n,
            n == src@.len(),
            spec_tokenize(src@) == toks_view(out@) + spec_tokenize(src@.skip(i as int)),
        decreases n - i,
    {
        let c = src.get_char(i);
        proof {
            assert(src@.skip(i as int)[0] == src@[i as int]);
            assert(src@.skip(i as int).skip(1) =~= src@.skip(i as int + 1));
        }
        if c == ' ' || c == '\t' || c == '\n' || c == '\r' {
            i = i + 1;
        } else if c == '[' {
            out.push(Token::Open);
            proof {
                assert(toks_view(out@) =~= toks_view(out@.drop_last()).push(Tok::Open));
                assert(toks_view(out@.drop_last()).push(Tok::Open) + spec_tokenize(
                    src@.skip(i as int + 1),
                ) =~= toks_view(out@.drop_last()) + (seq![Tok::Open] + spec_tokenize(
                    src@.skip(i as int + 1),
                )));
            }
            i = i + 1;
        } else if c == ']' {
            out.push(Token::Close);
            proof {
                assert(toks_view(out@) =~= toks_view(out@.drop_last()).push(Tok::Close));
                assert(toks_view(out@.drop_last()).push(Tok::Close) + spec_tokenize(
                    src@.skip(i as int + 1),
                ) =~= toks_view(out@.drop_last()) + (seq![Tok::Close] + spec_tokenize(
                    src@.skip(i as int + 1),
                )));
            }
            i = i + 1;
        } else {
            let mut j: usize = i + 1;
            while j < n && !break_char(src.get_char(j))
                invariant
                    i < j <= n,
                    n == src@.len(),
                    forall|m: int| i <= m < j ==> !is_break_char(#[trigger] src@[m]),
                decreases n - j,
            {
                j = j + 1;
            }
            proof {
                assert(j == n || is_break_char(src@[j as int]));
                assert(forall|m: int|
                    0 <= m < j - i ==> src@.skip(i as int)[m] == src@[m + i]);
                lemma_word_len_exact(src@.skip(i as int), j - i);
                assert(src@.skip(i as int).take(j - i) =~= src@.subrange(i as int, j as int));
            }
            let word = src.substring_char(i, j).to_owned();
            out.push(Token::Word(word));
            proof {
                assert(toks_view(out@) =~= toks_view(out@.drop_last()).push(
                    Tok::Word(src@.subrange(i as int, j as int)),
                ));
                assert(toks_view(out@.drop_last()).push(
                    Tok::Word(src@.subrange(i as int, j as int)),
                ) + spec_tokenize(src@.skip(j as int)) =~= toks_view(out@.drop_last()) + (seq![
                    Tok::Word(src@.subrange(i as int, j as int)),
                ] + spec_tokenize(src@.skip(j as int))));
                assert(src@.skip(i as int).skip(j - i) =~= src@.skip(j as int));
            }
            i = j;
        }
    }
    proof {
        assert(src@.skip(n as int).len() == 0);
        assert(toks_view(out@) + Seq::<Tok>::empty() =~= toks_view(out@));
    }
    out
}

/// Decides whether a character ends a word.
fn break_char(c: char) -> (r: bool)
    ensures
        r <==> is_break_char(c),
{
    c == ' ' || c == '\t' || c == '\n' || c == '\r' || c == '[' || c == ']'
}

/// Decides whether a token has the shape `(name)`.
fn hint_token(w: &str) -> (r: bool)
    ensures
        r <==> is_hint_token(w@),
{
    let n = w.unicode_len();
    if n < 3 {
        return false;
    }
    if w.get_char(0) != '(' {
        return false;
    }
    if w.get_char(n - 1) != ')' {
        return false;
    }
    let mut i: usize = 1;
    while i < n - 1
        invariant
            1 <= i <= n - 1,
            n == w@.len(),
            n >= 3,
            forall|m: int| 1 <= m < i ==> is_name_char(#[trigger] w@[m]),
        decreases n - i,
    {
        let c = w.get_char(i);
        let name = (c >= 'a' && c <= 'z') || (c >= '0' && c <= '9') || c == '-';
        if !name {
            proof {
                assert(!is_name_char(w@[i as int]));
            }
            return false;
        }
        i = i + 1;
    }
    true
}


/// A parsed item: one valid node carrying exactly one leaf, never `Empty`.
pub open spec fn item_ok(h: Heap, p: Pointer) -> bool {
    &&& h.valid(p)
    &&& h.leaves(p).len() == 1
    &&& h.leaves(p)[0] != Atom::Nil
}

/// A row of parsed items contributes one leaf per item, none of them
/// `Empty`.
proof fn lemma_items_atoms(h: Heap, s: Seq<Pointer>)
    requires
        forall|i: int| 0 <= i < s.len() ==> item_ok(h, #[trigger] s[i]),
    ensures
        seq_leaves(h, s).len() == s.len(),
        forall|i: int|
            0 <= i < s.len() ==> #[trigger] seq_leaves(h, s)[i] == h.leaves(s[i])[0]
                && seq_leaves(h, s)[i] != Atom::Nil,
    decreases s.len(),
{
    if s.len() > 0 {
        assert(item_ok(h, s[0]));
        assert(forall|i: int| 0 <= i < s.skip(1).len() ==> s.skip(1)[i] == s[i + 1]);
        lemma_items_atoms(h, s.skip(1));
        assert forall|i: int|
            0 <= i < s.len() implies #[trigger] seq_leaves(h, s)[i] == h.leaves(s[i])[0]
            && seq_leaves(h, s)[i] != Atom::Nil by {
            if i > 0 {
                assert(seq_leaves(h, s)[i] == seq_leaves(h, s.skip(1))[i - 1]);
            }
        }
    }
}

impl Heap {
    /// Folds a finished group of items into a single term, in order; an
    /// empty group becomes `Empty`.
    fn fold_group(&mut self, items: &Vec<Pointer>) -> (r: Result<Pointer, Error>)
        requires
            old(self).inv(),
            forall|i: int| 0 <= i < items@.len() ==> item_ok(*old(self), #[trigger] items@[i]),
        ensures
            final(self).inv(),
            Heap::extends(*final(self), *old(self)),
            match r {
                Ok(p) => final(self).valid(p) && final(self).leaves(p) == wrap(
                    seq_leaves(*old(self), items@),
                ),
                Err(e) => e == Error::Space && (forall|i: int|
                    0 <= i < final(self).cap() ==> final(self).occupied(i)),
            },
    {
        proof {
            lemma_items_atoms(*old(self), items@);
        }
        let mut xs = match self.new_id() {
            Ok(p) => p,
            Err(e) => {
                return Err(e);
            },
        };
        let mut i: usize = items.len();
        proof {
            assert(items@.skip(i as int) =~= Seq::<Pointer>::empty());
            crate::heap::lemma_leaves_unfold(*self, xs);
            assert(self.leaves(xs) == wrap(seq_leaves(*old(self), items@.skip(i as int))));
        }
        while i > 0
            invariant
                self.inv(),
                old(self).inv(),
                Heap::extends(*self, *old(self)),
                i <= items@.len(),
                forall|k: int| 0 <= k < items@.len() ==> item_ok(*old(self), #[trigger] items@[k]),
                self.valid(xs),
                self.leaves(xs) == wrap(seq_leaves(*old(self), items@.skip(i as int))),
            decreases i,
        {
            i = i - 1;
            let ghost hpre = *self;
            let item = items[i];
            proof {
                assert(item_ok(*old(self), item));
                lemma_extends_leaves(*old(self), *self, item);
            }
            xs = match self.new_sequence(item, xs) {
                Ok(p) => p,
                Err(e) => {
                    proof {
                        assert(e == Error::Space);
                    }
                    return Err(e);
                },
            };
            proof {
                let la = hpre.leaves(item);
                let suffix = seq_leaves(*old(self), items@.skip(i as int + 1));
                lemma_items_atoms(*old(self), items@);
                assert(self.leaves(xs) == njoin(la, wrap(suffix)));
                assert(la == seq![la[0]]) by {
                    assert(la =~= seq![la[0]]);
                }
                assert(la != nil_leaves()) by {
                    if la == nil_leaves() {
                        assert(la[0] == Atom::Nil);
                    }
                }
                assert(items@.skip(i as int)[0] == items@[i as int]);
                assert(items@.skip(i as int).skip(1) =~= items@.skip(i as int + 1));
                assert(seq_leaves(*old(self), items@.skip(i as int)) == old(self).leaves(
                    items@[i as int],
                ) + suffix);
                assert(la == old(self).leaves(items@[i as int]));
                if suffix.len() == 0 {
                    assert(njoin(la, wrap(suffix)) == la);
                    assert(la + suffix =~= la);
                    assert(wrap(la + suffix) == la);
                } else {
                    assert(wrap(suffix) == suffix);
                    assert(suffix != nil_leaves()) by {
                        if suffix == nil_leaves() {
                            assert(forall|m: int|
                                0 <= m < items@.skip(i as int + 1).len() ==> item_ok(
                                    *old(self),
                                    #[trigger] items@.skip(i as int + 1)[m],
                                ));
                            lemma_items_atoms(*old(self), items@.skip(i as int + 1));
                            assert(suffix[0] != Atom::Nil);
                        }
                    }
                    assert(njoin(la, wrap(suffix)) == la + suffix);
                    assert((la + suffix).len() >= 2);
                    assert(wrap(la + suffix) == la + suffix);
                }
            }
        }
        proof {
            assert(items@.skip(0) =~= items@);
        }
        Ok(xs)
    }
}


/// The abstract group stack an executable parse state denotes: the atoms of
/// every suspended group, then the atoms of the group being built.
pub open spec fn groups_view(h: Heap, st: Seq<Vec<Pointer>>, build: Seq<Pointer>) -> Seq<
    Seq<Atom>,
> {
    Seq::new(st.len(), |k: int| seq_leaves(h, st[k]@)).push(seq_leaves(h, build))
}

spec fn groups_ok(h: Heap, st: Seq<Vec<Pointer>>, build: Seq<Pointer>) -> bool {
    &&& forall|k: int, i: int|
        0 <= k < st.len() && 0 <= i < st[k]@.len() ==> item_ok(h, #[trigger] st[k]@[i])
    &&& forall|i: int| 0 <= i < build.len() ==> item_ok(h, #[trigger] build[i])
}

proof fn lemma_groups_frame(h1: Heap, h2: Heap, st: Seq<Vec<Pointer>>, build: Seq<Pointer>)
    requires
        h1.inv(),
        Heap::extends(h2, h1),
        groups_ok(h1, st, build),
    ensures
        groups_ok(h2, st, build),
        groups_view(h2, st, build) == groups_view(h1, st, build),
{
    assert forall|k: int, i: int|
        0 <= k < st.len() && 0 <= i < st[k]@.len() implies item_ok(
        h2,
        #[trigger] st[k]@[i],
    ) by {
        lemma_extends_leaves(h1, h2, st[k]@[i]);
    }
    assert forall|i: int| 0 <= i < build.len() implies item_ok(h2, #[trigger] build[i]) by {
        lemma_extends_leaves(h1, h2, build[i]);
    }
    assert forall|k: int|
        0 <= k < st.len() implies seq_leaves(h2, #[trigger] st[k]@) == seq_leaves(h1, st[k]@) by {
        crate::machine::lemma_seq_leaves_extends_pub(h1, h2, st[k]@);
    }
    crate::machine::lemma_seq_leaves_extends_pub(h1, h2, build);
    assert(groups_view(h2, st, build) =~= groups_view(h1, st, build));
}

impl Heap {
    /// Parses whitespace-separated concatenative source into a heap-resident
    /// term. Brackets must balance; unbalanced brackets fail with `Syntax`;
    /// empty input yields `Empty`.
    #[verifier::rlimit(60)]
    pub fn parse(&mut self, raw: &str) -> (r: Result<Pointer, Error>)
        requires
            old(self).inv(),
        ensures
            final(self).inv(),
            Heap::extends(*final(self), *old(self)),
            match r {
                Ok(p) => {
                    &&& spec_parse(raw@) matches Some(atoms) && final(self).valid(p)
                        && final(self).leaves(p) == atoms
                },
                Err(e) => {
                    &&& (e == Error::Syntax || e == Error::Space)
                    &&& (e == Error::Syntax ==> spec_parse(raw@) is None)
                    &&& (e == Error::Space ==> forall|i: int|
                        0 <= i < final(self).cap() ==> final(self).occupied(i))
                },
            },
    {
        let toks = tokenize(raw);
        let ghost tv = toks_view(toks@);
        let mut stack: Vec<Vec<Pointer>> = Vec::new();
        let mut build: Vec<Pointer> = Vec::new();
        let mut k: usize = 0;
        let n = toks.len();
        proof {
            assert(tv.take(0) =~= Seq::<Tok>::empty());
            assert(seq_leaves(*self, build@) =~= Seq::<Atom>::empty());
            assert(groups_view(*self, stack@, build@) =~= seq![Seq::<Atom>::empty()]);
            assert(seq![Seq::<Atom>::empty()] =~= seq![seq![]]);
        }
        while k < n
            invariant
                self.inv(),
                old(self).inv(),
                Heap::extends(*self, *old(self)),
                k <= n,
                n == toks@.len(),
                tv == toks_view(toks@),
                tv == spec_tokenize(raw@),
                groups_ok(*self, stack@, build@),
                parse_toks(seq![seq![]], tv.take(k as int)) == Some(
                    groups_view(*self, stack@, build@),
                ),
            decreases n - k,
        {
            let ghost h0 = *self;
            let ghost st0 = stack@;
            let ghost b0 = build@;
            let ghost view0 = groups_view(h0, st0, b0);
            proof {
                assert(tv.take(k as int + 1) =~= tv.take(k as int) + seq![tv[k as int]]);
                lemma_parse_toks_app(seq![seq![]], tv.take(k as int), seq![tv[k as int]]);
                assert((seq![tv[k as int]])[0] == tv[k as int]);
                assert((seq![tv[k as int]]).skip(1) =~= Seq::<Tok>::empty());
                match parse_tok(view0, tv[k as int]) {
                    None => {
                        assert(parse_toks(view0, seq![tv[k as int]]) is None);
                    },
                    Some(st) => {
                        assert(parse_toks(st, (seq![tv[k as int]]).skip(1)) == Some(st));
                        assert(parse_toks(view0, seq![tv[k as int]]) == Some(st));
                    },
                }
                assert(tv[k as int] == toks@[k as int].view());
            }
            let tok = &toks[k];
            match tok {
                Token::Open => {
                    let held = build;
                    build = Vec::new();
                    stack.push(held);
                    proof {
                        assert(stack@.drop_last() =~= st0);
                        assert(stack@.last()@ == b0);
                        assert(seq_leaves(*self, build@) =~= Seq::<Atom>::empty());
                        assert(groups_view(*self, stack@, build@) =~= view0.push(seq![]));
                    }
                },
                Token::Close => {
                    let prev = match stack.pop() {
                        Some(p) => p,
                        None => {
                            proof {
                                assert(view0.len() == 1);
                                assert(parse_toks(seq![seq![]], tv.take(k as int + 1))
                                    is None);
                                lemma_parse_toks_app(
                                    seq![seq![]],
                                    tv.take(k as int + 1),
                                    tv.skip(k as int + 1),
                                );
                                assert(tv.take(k as int + 1) + tv.skip(k as int + 1) =~= tv);
                                assert(parse_toks(seq![seq![]], tv) is None);
                            }
                            return Err(Error::Syntax);
                        },
                    };
                    let ghost hpre = *self;
                    let folded = match self.fold_group(&build) {
                        Ok(p) => p,
                        Err(e) => {
                            proof {
                                crate::heap::lemma_extends_trans(*old(self), hpre, *self);
                            }
                            return Err(e);
                        },
                    };
                    let ghost h1 = *self;
                    let blk = match self.new_block(folded) {
                        Ok(p) => p,
                        Err(e) => {
                            proof {
                                crate::heap::lemma_extends_trans(hpre, h1, *self);
                                crate::heap::lemma_extends_trans(*old(self), hpre, *self);
                            }
                            return Err(e);
                        },
                    };
                    build = prev;
                    build.push(blk);
                    proof {
                        crate::heap::lemma_extends_trans(hpre, h1, *self);
                        crate::heap::lemma_extends_trans(*old(self), hpre, *self);
                        lemma_groups_frame(hpre, *self, st0, b0);
                        assert(st0.len() >= 1);
                        assert(view0.len() >= 2);
                        assert(h1.leaves(folded) == wrap(seq_leaves(hpre, b0)));
                        lemma_extends_leaves(h1, *self, folded);
                        assert(self.leaves(blk) =~= seq![Atom::Quo(wrap(seq_leaves(hpre, b0)))]);
                        assert(view0.last() == seq_leaves(hpre, b0));
                        assert(item_ok(*self, blk)) by {
                            assert(self.leaves(blk)[0] != Atom::Nil);
                        }
                        assert(stack@ =~= st0.drop_last());
                        assert(build@ =~= st0.last()@.push(blk));
                        assert(groups_ok(*self, stack@, build@)) by {
                            assert(forall|i: int|
                                0 <= i < st0.last()@.len() ==> item_ok(
                                    *self,
                                    #[trigger] st0.last()@[i],
                                ));
                            assert(forall|i: int|
                                0 <= i < build@.len() - 1 ==> build@[i] == st0.last()@[i]);
                            assert(forall|k2: int, i: int|
                                0 <= k2 < stack@.len() && 0 <= i < stack@[k2]@.len()
                                    ==> stack@[k2]@[i] == st0[k2]@[i]);
                        }
                        assert(groups_view(*self, stack@, build@) =~= view0.drop_last().update(
                            view0.len() - 2,
                            view0[view0.len() - 2].push(Atom::Quo(wrap(view0.last()))),
                        )) by {
                            crate::machine::lemma_seq_leaves_push_pub(
                                *self,
                                st0.last()@,
                                blk,
                            );
                            crate::machine::lemma_seq_leaves_extends_pub(
                                hpre,
                                *self,
                                st0.last()@,
                            );
                            assert(seq_leaves(*self, build@) == seq_leaves(hpre, st0.last()@)
                                + self.leaves(blk));
                            assert(seq_leaves(hpre, st0.last()@) + self.leaves(blk)
                                =~= seq_leaves(hpre, st0.last()@).push(
                                Atom::Quo(wrap(view0.last())),
                            ));
                            assert(view0[view0.len() - 2] == seq_leaves(hpre, st0.last()@));
                        }
                    }
                },
                Token::Word(w) => {
                    let ghost hpre = *self;
                    let node = match parse_opcode(w.as_str()) {
                        Some(op) => {
                            match self.new_opcode(op) {
                                Ok(p) => p,
                                Err(e) => {
                                    proof {
                                        crate::heap::lemma_extends_trans(
                                            *old(self),
                                            hpre,
                                            *self,
                                        );
                                    }
                                    return Err(e);
                                },
                            }
                        },
                        None => {
                            if hint_token(w.as_str()) {
                                let nlen = w.as_str().unicode_len();
                                let name = w.as_str().substring_char(1, nlen - 1).to_owned();
                                match self.new_hint(name) {
                                    Ok(p) => p,
                                    Err(e) => {
                                        proof {
                                            crate::heap::lemma_extends_trans(
                                                *old(self),
                                                hpre,
                                                *self,
                                            );
                                        }
                                        return Err(e);
                                    },
                                }
                            } else {
                                let word = w.clone();
                                match self.new_word(word) {
                                    Ok(p) => p,
                                    Err(e) => {
                                        proof {
                                            crate::heap::lemma_extends_trans(
                                                *old(self),
                                                hpre,
                                                *self,
                                            );
                                        }
                                        return Err(e);
                                    },
                                }
                            }
                        },
                    };
                    build.push(node);
                    proof {
                        crate::heap::lemma_extends_trans(*old(self), hpre, *self);
                        lemma_groups_frame(hpre, *self, st0, b0);
                        crate::heap::lemma_leaves_unfold(*self, node);
                        assert(self.leaves(node) =~= seq![tok_atom(w@)]);
                        assert(item_ok(*self, node)) by {
                            assert(self.leaves(node)[0] != Atom::Nil);
                        }
                        assert(build@ =~= b0.push(node));
                        crate::machine::lemma_seq_leaves_push_pub(*self, b0, node);
                        crate::machine::lemma_seq_leaves_extends_pub(hpre, *self, b0);
                        assert(seq_leaves(*self, build@) =~= seq_leaves(hpre, b0).push(
                            tok_atom(w@),
                        ));
                        assert(groups_view(*self, stack@, build@) =~= view0.update(
                            view0.len() - 1,
                            view0.last().push(tok_atom(w@)),
                        ));
                    }
                },
            }
            k = k + 1;
        }
        proof {
            assert(tv.take(n as int) =~= tv);
        }
        if stack.len() != 0 {
            proof {
                assert(groups_view(*self, stack@, build@).len() >= 2);
            }
            return Err(Error::Syntax);
        }
        let ghost hend = *self;
        let r = self.fold_group(&build);
        proof {
            crate::heap::lemma_extends_trans(*old(self), hend, *self);
            if let Ok(p) = r {
                assert(groups_view(hend, stack@, build@).len() == 1);
                assert(groups_view(hend, stack@, build@)[0] == seq_leaves(hend, build@));
                assert(self.leaves(p) == wrap(seq_leaves(hend, build@)));
            }
        }
        r
    }
}


/// A symbol that the reader gives back: nonempty, free of breaks, and not
/// mistakable for a primitive or an annotation.
pub open spec fn sym_wf(w: Seq<char>) -> bool {
    &&& w.len() >= 1
    &&& forall|i: int| 0 <= i < w.len() ==> !is_break_char(#[trigger] w[i])
    &&& token_opcode(w) is None
    &&& !is_hint_token(w)
}

/// An annotation name that the reader gives back: nonempty name characters.
pub open spec fn ann_wf(w: Seq<char>) -> bool {
    &&& w.len() >= 1
    &&& forall|i: int| 0 <= i < w.len() ==> is_name_char(#[trigger] w[i])
}

/// A leaf whose rendering reads back as itself. Literals are excluded: the
/// reader makes no literals, so a rendered literal reads back as a symbol.
pub open spec fn atom_wf(a: Atom) -> bool
    decreases a, 1nat,
{
    match a {
        Atom::Nil => false,
        Atom::Lit(_) => false,
        Atom::Sym(w) => sym_wf(w),
        Atom::Ann(w) => ann_wf(w),
        Atom::Op(_) => true,
        Atom::Quo(q) => row_wf(q),
    }
}

/// A leaf row whose rendering reads back as itself: the single `Empty` leaf,
/// or a nonempty row of readable leaves.
pub open spec fn row_wf(s: Seq<Atom>) -> bool
    decreases s, s.len() + 2,
{
    ||| s == nil_leaves()
    ||| (s.len() >= 1 && row_wf_from(s, 0))
}

/// Every leaf from position `i` on is readable and not `Empty`.
pub open spec fn row_wf_from(s: Seq<Atom>, i: int) -> bool
    decreases s, s.len() - i + 1,
{
    if i < 0 || i >= s.len() {
        true
    } else {
        atom_wf(s[i]) && s[i] != Atom::Nil && row_wf_from(s, i + 1)
    }
}

/// The size of a leaf, counting nested quotation structure.
pub open spec fn atom_size(a: Atom) -> nat
    decreases a, 1nat,
{
    match a {
        Atom::Quo(q) => 1 + row_size_from(q, 0),
        _ => 1,
    }
}

/// The size of a row from position `i` on.
pub open spec fn row_size_from(s: Seq<Atom>, i: int) -> nat
    decreases s, s.len() - i + 1,
{
    if i < 0 || i >= s.len() {
        0
    } else {
        atom_size(s[i]) + row_size_from(s, i + 1)
    }
}

/// The tokens a readable leaf renders to.
pub open spec fn toks_of_atom(a: Atom) -> Seq<Tok>
    decreases a, 1nat,
{
    match a {
        Atom::Nil => seq![],
        Atom::Lit(_) => seq![],
        Atom::Sym(w) => seq![Tok::Word(w)],
        Atom::Ann(w) => seq![Tok::Word(seq!['('] + w + seq![')'])],
        Atom::Op(op) => seq![Tok::Word(opcode_token(op))],
        Atom::Quo(q) => seq![Tok::Open] + toks_of_row(q) + seq![Tok::Close],
    }
}

/// The tokens a readable row renders to.
pub open spec fn toks_of_row(s: Seq<Atom>) -> Seq<Tok>
    decreases s, s.len() + 2,
{
    if s == nil_leaves() {
        seq![]
    } else {
        toks_of_from(s, 0)
    }
}

/// The tokens of the leaves from position `i` on.
pub open spec fn toks_of_from(s: Seq<Atom>, i: int) -> Seq<Tok>
    decreases s, s.len() - i + 1,
{
    if i < 0 || i >= s.len() {
        seq![]
    } else {
        toks_of_atom(s[i]) + toks_of_from(s, i + 1)
    }
}


/// A nonempty break-free run followed by a break (or the end) tokenizes as
/// one word.
proof fn lemma_tokenize_word(w: Seq<char>, t: Seq<char>)
    requires
        w.len() >= 1,
        forall|i: int| 0 <= i < w.len() ==> !is_break_char(#[trigger] w[i]),
        t.len() == 0 || is_break_char(t[0]),
    ensures
        spec_tokenize(w + t) == seq![Tok::Word(w)] + spec_tokenize(t),
{
    let s = w + t;
    assert(s.len() == w.len() + t.len());
    assert(forall|i: int| 0 <= i < w.len() ==> s[i] == w[i]);
    assert(forall|i: int| w.len() <= i < s.len() ==> s[i] == t[i - w.len()]);
    assert(!is_break_char(s[0]));
    assert(!is_space_char(s[0]) && s[0] != '[' && s[0] != ']');
    lemma_word_len_exact(s, w.len() as int);
    assert(s.take(w.len() as int) =~= w);
    assert(s.skip(w.len() as int) =~= t);
}

/// Tokenizing the rendering of a readable leaf, followed by anything that
/// starts at a token break, yields the leaf's tokens and then the rest.
proof fn lemma_tokenize_atom(a: Atom, t: Seq<char>)
    requires
        atom_wf(a),
        t.len() == 0 || is_break_char(t[0]),
    ensures
        spec_tokenize(render_atom(a) + t) == toks_of_atom(a) + spec_tokenize(t),
    decreases atom_size(a), 0nat,
{
    match a {
        Atom::Sym(w) => {
            lemma_tokenize_word(w, t);
        },
        Atom::Ann(w) => {
            let ww = seq!['('] + w + seq![')'];
            assert(render_atom(a) =~= ww);
            assert forall|i: int| 0 <= i < ww.len() implies !is_break_char(#[trigger] ww[i]) by {
                if i == 0 {
                    assert(ww[0] == '(');
                } else if i == ww.len() - 1 {
                    assert(ww[i] == ')');
                } else {
                    assert(ww[i] == w[i - 1]);
                    assert(is_name_char(w[i - 1]));
                }
            }
            lemma_tokenize_word(ww, t);
        },
        Atom::Op(op) => {
            let w = opcode_token(op);
            lemma_opcode_token_chars(op);
            lemma_tokenize_word(w, t);
        },
        Atom::Quo(q) => {
            let inner = render_leaves(q);
            assert(render_atom(a) =~= seq!['['] + inner + seq![']']);
            let s = render_atom(a) + t;
            assert(s =~= seq!['['] + (inner + (seq![']'] + t)));
            assert(s[0] == '[');
            assert(s.skip(1) =~= inner + (seq![']'] + t));
            assert((seq![']'] + t)[0] == ']');
            lemma_tokenize_row(q, seq![']'] + t);
            assert((seq![']'] + t).skip(1) =~= t);
            assert(spec_tokenize(seq![']'] + t) =~= seq![Tok::Close] + spec_tokenize(t));
            assert(spec_tokenize(s) =~= seq![Tok::Open] + (toks_of_row(q) + (seq![Tok::Close]
                + spec_tokenize(t))));
            assert(seq![Tok::Open] + (toks_of_row(q) + (seq![Tok::Close] + spec_tokenize(t)))
                =~= (seq![Tok::Open] + toks_of_row(q) + seq![Tok::Close]) + spec_tokenize(t));
        },
        _ => {},
    }
}

/// Tokenizing the rendering of a readable row, followed by anything that
/// starts at a token break, yields the row's tokens and then the rest.
proof fn lemma_tokenize_row(q: Seq<Atom>, t: Seq<char>)
    requires
        row_wf(q),
        t.len() == 0 || is_break_char(t[0]),
    ensures
        spec_tokenize(render_leaves(q) + t) == toks_of_row(q) + spec_tokenize(t),
    decreases row_size_from(q, 0), 2nat,
{
    if q == nil_leaves() {
        assert(render_leaves(q) =~= Seq::<char>::empty());
        assert(render_leaves(q) + t =~= t);
        assert(toks_of_row(q) + spec_tokenize(t) =~= spec_tokenize(t));
    } else {
        lemma_row_wf_facts(q, 0);
        lemma_tokenize_row_from(q, 0, t);
        assert(toks_of_row(q) == toks_of_from(q, 0));
        lemma_render_from(q, 0);
        assert(q.skip(0) =~= q);
        assert(render_from(q, 0) == render_leaves(q));
    }
}

/// Readability of a row tail, spelled out leaf by leaf.
proof fn lemma_row_wf_facts(s: Seq<Atom>, i: int)
    requires
        row_wf_from(s, i),
        0 <= i,
    ensures
        forall|j: int| i <= j < s.len() ==> atom_wf(#[trigger] s[j]) && s[j] != Atom::Nil,
    decreases s.len() - i,
{
    if i < s.len() {
        lemma_row_wf_facts(s, i + 1);
    }
}

/// The rendering of the leaves from position `i` on.
spec fn render_from(s: Seq<Atom>, i: int) -> Seq<char>
    decreases s, s.len() - i + 1,
{
    if i < 0 || i >= s.len() {
        Seq::empty()
    } else if i == s.len() - 1 {
        render_atom(s[i])
    } else {
        render_atom(s[i]) + seq![' '] + render_from(s, i + 1)
    }
}

/// For rows that are not the bare `Empty` leaf, rendering from the front is
/// the row's rendering.
proof fn lemma_render_from(s: Seq<Atom>, i: int)
    requires
        0 <= i < s.len(),
        forall|j: int| i <= j < s.len() ==> #[trigger] s[j] != Atom::Nil,
    ensures
        render_from(s, i) == render_leaves(s.skip(i)),
    decreases s.len() - i,
{
    let rest = s.skip(i);
    assert(rest[0] == s[i]);
    assert(rest != nil_leaves()) by {
        if rest == nil_leaves() {
            assert(rest[0] == Atom::Nil);
        }
    }
    if i == s.len() - 1 {
        assert(rest.len() == 1);
        assert(render_leaves(rest) == render_atom(rest[0]));
    } else {
        assert(rest.len() >= 2);
        assert(rest.skip(1) =~= s.skip(i + 1));
        lemma_render_from(s, i + 1);
        assert(render_leaves(rest) == render_atom(rest[0]) + seq![' '] + render_leaves(
            rest.skip(1),
        ));
    }
}

/// Tokenizing the rendering of readable leaves from position `i` on.
proof fn lemma_tokenize_row_from(s: Seq<Atom>, i: int, t: Seq<char>)
    requires
        0 <= i < s.len(),
        row_wf_from(s, i),
        t.len() == 0 || is_break_char(t[0]),
    ensures
        spec_tokenize(render_from(s, i) + t) == toks_of_from(s, i) + spec_tokenize(t),
    decreases row_size_from(s, i), 1nat,
{
    proof_row_size_pos(s, i);
    if i == s.len() - 1 {
        lemma_tokenize_atom(s[i], t);
        assert(render_from(s, i) == render_atom(s[i]));
        assert(toks_of_from(s, i + 1) =~= Seq::<Tok>::empty());
        assert(toks_of_atom(s[i]) + Seq::<Tok>::empty() =~= toks_of_atom(s[i]));
        assert(toks_of_from(s, i) =~= toks_of_atom(s[i]));
        assert(toks_of_atom(s[i]) + spec_tokenize(t) =~= toks_of_from(s, i) + spec_tokenize(t));
    } else {
        let rest = render_from(s, i + 1);
        assert(render_from(s, i) + t =~= render_atom(s[i]) + (seq![' '] + (rest + t)));
        assert((seq![' '] + (rest + t))[0] == ' ');
        lemma_tokenize_atom(s[i], seq![' '] + (rest + t));
        assert((seq![' '] + (rest + t)).skip(1) =~= rest + t);
        assert(spec_tokenize(seq![' '] + (rest + t)) == spec_tokenize(rest + t));
        lemma_tokenize_row_from(s, i + 1, t);
        assert(spec_tokenize(render_from(s, i) + t) =~= toks_of_atom(s[i]) + (toks_of_from(
            s,
            i + 1,
        ) + spec_tokenize(t)));
        assert(toks_of_atom(s[i]) + (toks_of_from(s, i + 1) + spec_tokenize(t)) =~= (toks_of_atom(
            s[i],
        ) + toks_of_from(s, i + 1)) + spec_tokenize(t));
    }
}

/// Each leaf counts at least one toward the row size.
proof fn proof_row_size_pos(s: Seq<Atom>, i: int)
    requires
        0 <= i < s.len(),
    ensures
        atom_size(s[i]) >= 1,
        row_size_from(s, i) == atom_size(s[i]) + row_size_from(s, i + 1),
{
}

/// The canonical token of every primitive is a nonempty run of non-break
/// characters, names that primitive and no other, and is no annotation.
#[verifier::spinoff_prover]
#[verifier::rlimit(100)]
proof fn lemma_opcode_token_chars(op: Opcode)
    ensures
        opcode_token(op).len() >= 1,
        forall|i: int|
            0 <= i < opcode_token(op).len() ==> !is_break_char(#[trigger] opcode_token(op)[i]),
        token_opcode(opcode_token(op)) == Some(op),
        !is_hint_token(opcode_token(op)),
{
    reveal_strlit("Apply");
    reveal_strlit("Box");
    reveal_strlit("Concatenate");
    reveal_strlit("Copy");
    reveal_strlit("Drop");
    reveal_strlit("Swap");
    reveal_strlit("Fix");
    reveal_strlit("Prop");
    reveal_strlit("Forall");
    assert(opcode_token(op)[0] != '(');
}


/// The leaves a readable row contributes to its group: none for the bare
/// `Empty` leaf, the row itself otherwise.
pub open spec fn row_atoms(q: Seq<Atom>) -> Seq<Atom> {
    if q == nil_leaves() {
        seq![]
    } else {
        q
    }
}

/// Reading back the tokens of one readable leaf appends exactly that leaf to
/// the open group.
proof fn lemma_parse_atom(stack: Seq<Seq<Atom>>, a: Atom, rest: Seq<Tok>)
    requires
        atom_wf(a),
        stack.len() >= 1,
    ensures
        parse_toks(stack, toks_of_atom(a) + rest) == parse_toks(
            stack.update(stack.len() - 1, stack.last().push(a)),
            rest,
        ),
    decreases atom_size(a), 0nat,
{
    reveal_strlit("Apply");
    reveal_strlit("Box");
    reveal_strlit("Concatenate");
    reveal_strlit("Copy");
    reveal_strlit("Drop");
    reveal_strlit("Swap");
    reveal_strlit("Fix");
    reveal_strlit("Prop");
    reveal_strlit("Forall");
    match a {
        Atom::Sym(w) => {
            assert(tok_atom(w) == a);
            let toks = toks_of_atom(a) + rest;
            assert(toks[0] == Tok::Word(w));
            assert(toks.skip(1) =~= rest);
        },
        Atom::Ann(w) => {
            let ww = seq!['('] + w + seq![')'];
            assert(ww[0] == '(');
            assert(token_opcode(ww) is None) by {
                if ww == "Apply"@ {
                    assert(ww[0] == 'A');
                }
                if ww == "Box"@ {
                    assert(ww[0] == 'B');
                }
                if ww == "Concatenate"@ {
                    assert(ww[0] == 'C');
                }
                if ww == "Copy"@ {
                    assert(ww[0] == 'C');
                }
                if ww == "Drop"@ {
                    assert(ww[0] == 'D');
                }
                if ww == "Swap"@ {
                    assert(ww[0] == 'S');
                }
                if ww == "Fix"@ {
                    assert(ww[0] == 'F');
                }
                if ww == "Prop"@ {
                    assert(ww[0] == 'P');
                }
                if ww == "Forall"@ {
                    assert(ww[0] == 'F');
                }
            }
            assert(is_hint_token(ww)) by {
                assert(ww.len() == w.len() + 2);
                assert(ww[ww.len() - 1] == ')');
                assert(forall|i: int| 1 <= i < ww.len() - 1 ==> #[trigger] ww[i] == w[i - 1]);
            }
            assert(ww.subrange(1, ww.len() - 1) =~= w);
            assert(tok_atom(ww) == a);
            let toks = toks_of_atom(a) + rest;
            assert(toks[0] == Tok::Word(ww));
            assert(toks.skip(1) =~= rest);
        },
        Atom::Op(op) => {
            lemma_opcode_token_chars(op);
            assert(tok_atom(opcode_token(op)) == a);
            let toks = toks_of_atom(a) + rest;
            assert(toks[0] == Tok::Word(opcode_token(op)));
            assert(toks.skip(1) =~= rest);
        },
        Atom::Quo(q) => {
            let toks = toks_of_atom(a) + rest;
            assert(toks =~= seq![Tok::Open] + (toks_of_row(q) + (seq![Tok::Close] + rest)));
            assert(toks[0] == Tok::Open);
            assert(toks.skip(1) =~= toks_of_row(q) + (seq![Tok::Close] + rest));
            let stack2 = stack.push(seq![]);
            lemma_parse_row(stack2, q, seq![Tok::Close] + rest);
            let stack3 = stack2.update(stack2.len() - 1, stack2.last() + row_atoms(q));
            assert(stack3.last() =~= row_atoms(q));
            assert((seq![Tok::Close] + rest)[0] == Tok::Close);
            assert((seq![Tok::Close] + rest).skip(1) =~= rest);
            assert(stack3.len() >= 2);
            let closed = stack3.drop_last().update(
                stack3.len() - 2,
                stack3[stack3.len() - 2].push(Atom::Quo(wrap(stack3.last()))),
            );
            assert(wrap(row_atoms(q)) == q) by {
                if q == nil_leaves() {
                    assert(row_atoms(q) =~= Seq::<Atom>::empty());
                }
            }
            assert(closed =~= stack.update(stack.len() - 1, stack.last().push(a))) by {
                assert(stack3.drop_last() =~= stack);
                assert(stack3[stack3.len() - 2] == stack.last());
            }
        },
        _ => {},
    }
}

/// Reading back the tokens of the readable leaves from position `i` on
/// appends exactly those leaves to the open group.
proof fn lemma_parse_row_from(stack: Seq<Seq<Atom>>, s: Seq<Atom>, i: int, rest: Seq<Tok>)
    requires
        0 <= i <= s.len(),
        row_wf_from(s, i),
        stack.len() >= 1,
    ensures
        parse_toks(stack, toks_of_from(s, i) + rest) == parse_toks(
            stack.update(stack.len() - 1, stack.last() + s.skip(i)),
            rest,
        ),
    decreases row_size_from(s, i), 1nat,
{
    if i == s.len() {
        assert(toks_of_from(s, i) + rest =~= rest);
        assert(s.skip(i) =~= Seq::<Atom>::empty());
        assert(stack.update(stack.len() - 1, stack.last() + s.skip(i)) =~= stack) by {
            assert(stack.last() + Seq::<Atom>::empty() =~= stack.last());
        }
    } else {
        proof_row_size_pos(s, i);
        assert(toks_of_from(s, i) + rest =~= toks_of_atom(s[i]) + (toks_of_from(s, i + 1)
            + rest));
        lemma_parse_atom(stack, s[i], toks_of_from(s, i + 1) + rest);
        let stack2 = stack.update(stack.len() - 1, stack.last().push(s[i]));
        lemma_parse_row_from(stack2, s, i + 1, rest);
        assert(stack2.update(stack2.len() - 1, stack2.last() + s.skip(i + 1)) =~= stack.update(
            stack.len() - 1,
            stack.last() + s.skip(i),
        )) by {
            assert(stack.last().push(s[i]) + s.skip(i + 1) =~= stack.last() + s.skip(i));
        }
    }
}

/// Reading back the tokens of a readable row appends exactly its leaves to
/// the open group.
proof fn lemma_parse_row(stack: Seq<Seq<Atom>>, q: Seq<Atom>, rest: Seq<Tok>)
    requires
        row_wf(q),
        stack.len() >= 1,
    ensures
        parse_toks(stack, toks_of_row(q) + rest) == parse_toks(
            stack.update(stack.len() - 1, stack.last() + row_atoms(q)),
            rest,
        ),
    decreases row_size_from(q, 0), 2nat,
{
    if q == nil_leaves() {
        assert(toks_of_row(q) + rest =~= rest);
        assert(stack.update(stack.len() - 1, stack.last() + row_atoms(q)) =~= stack) by {
            assert(stack.last() + Seq::<Atom>::empty() =~= stack.last());
        }
    } else {
        lemma_parse_row_from(stack, q, 0, rest);
        assert(q.skip(0) =~= q);
        assert(toks_of_row(q) == toks_of_from(q, 0));
    }
}

/// The round trip: a readable row, rendered and read back, is itself. For
/// well-formed program text, rendering what it parses to is therefore the
/// canonical form of the text: parsing that rendering reproduces the same
/// term, so canonical renderings are fixed points of parse-then-render.
pub proof fn lemma_parse_render(x: Seq<Atom>)
    requires
        row_wf(x),
    ensures
        spec_parse(render_leaves(x)) == Some(x),
{
    lemma_tokenize_row(x, Seq::empty());
    assert(render_leaves(x) + Seq::<char>::empty() =~= render_leaves(x));
    assert(spec_tokenize(Seq::empty()) =~= Seq::<Tok>::empty());
    assert(toks_of_row(x) + Seq::<Tok>::empty() =~= toks_of_row(x));
    assert(spec_tokenize(render_leaves(x)) == toks_of_row(x));
    let init: Seq<Seq<Atom>> = seq![seq![]];
    lemma_parse_row(init, x, Seq::empty());
    let st = init.update(0, init.last() + row_atoms(x));
    assert(parse_toks(st, Seq::empty()) == Some(st));
    assert(st.len() == 1);
    assert(st[0] =~= row_atoms(x));
    assert(wrap(row_atoms(x)) == x) by {
        if x == nil_leaves() {
            assert(row_atoms(x) =~= Seq::<Atom>::empty());
        }
    }
}


/// Every character of the word starting the text is a non-break character.
proof fn lemma_word_len_chars(s: Seq<char>)
    ensures
        forall|i: int| 0 <= i < word_len(s) ==> !is_break_char(#[trigger] s[i]),
        word_len(s) <= s.len(),
    decreases s.len(),
{
    lemma_word_len_bound(s);
    if s.len() > 0 && !is_break_char(s[0]) {
        lemma_word_len_chars(s.skip(1));
        assert forall|i: int| 0 <= i < word_len(s) implies !is_break_char(#[trigger] s[i]) by {
            if i > 0 {
                assert(s[i] == s.skip(1)[i - 1]);
            }
        }
    }
}

/// Every word token the tokenizer produces is nonempty and break-free.
proof fn lemma_tokenize_words(s: Seq<char>)
    ensures
        forall|k: int|
            0 <= k < spec_tokenize(s).len() ==> (#[trigger] spec_tokenize(s)[k] matches Tok::Word(
                w,
            ) ==> w.len() >= 1 && forall|i: int| 0 <= i < w.len() ==> !is_break_char(
                #[trigger] w[i],
            )),
    decreases s.len(),
{
    if s.len() == 0 {
    } else if is_space_char(s[0]) {
        lemma_tokenize_words(s.skip(1));
    } else if s[0] == '[' || s[0] == ']' {
        lemma_tokenize_words(s.skip(1));
        assert forall|k: int|
            0 <= k < spec_tokenize(s).len() implies (#[trigger] spec_tokenize(s)[k]
            matches Tok::Word(w) ==> w.len() >= 1 && forall|i: int|
            0 <= i < w.len() ==> !is_break_char(#[trigger] w[i])) by {
            if k > 0 {
                assert(spec_tokenize(s)[k] == spec_tokenize(s.skip(1))[k - 1]);
            }
        }
    } else {
        let wl = word_len(s) as int;
        lemma_word_len_chars(s);
        assert(wl >= 1);
        lemma_tokenize_words(s.skip(wl));
        assert(forall|i: int| 0 <= i < wl ==> s.take(wl)[i] == s[i]);
        assert forall|k: int|
            0 <= k < spec_tokenize(s).len() implies (#[trigger] spec_tokenize(s)[k]
            matches Tok::Word(w) ==> w.len() >= 1 && forall|i: int|
            0 <= i < w.len() ==> !is_break_char(#[trigger] w[i])) by {
            if k > 0 {
                assert(spec_tokenize(s)[k] == spec_tokenize(s.skip(wl))[k - 1]);
            }
        }
    }
}

/// Elementwise readability builds up the row predicate.
proof fn lemma_row_wf_build(s: Seq<Atom>, i: int)
    requires
        0 <= i <= s.len(),
        forall|j: int| i <= j < s.len() ==> atom_wf(#[trigger] s[j]) && s[j] != Atom::Nil,
    ensures
        row_wf_from(s, i),
    decreases s.len() - i,
{
    if i < s.len() {
        lemma_row_wf_build(s, i + 1);
    }
}

/// Each leaf the reader pushes is readable.
proof fn lemma_tok_atom_wf(w: Seq<char>)
    requires
        w.len() >= 1,
        forall|i: int| 0 <= i < w.len() ==> !is_break_char(#[trigger] w[i]),
    ensures
        atom_wf(tok_atom(w)),
        tok_atom(w) != Atom::Nil,
{
    match token_opcode(w) {
        Some(op) => {},
        None => {
            if is_hint_token(w) {
                let name = w.subrange(1, w.len() - 1);
                assert(name.len() >= 1);
                assert(forall|i: int| 0 <= i < name.len() ==> is_name_char(#[trigger] name[i]))
                    by {
                    assert(forall|i: int| 0 <= i < name.len() ==> name[i] == w[i + 1]);
                }
            }
        },
    }
}

spec fn stack_wf(stack: Seq<Seq<Atom>>) -> bool {
    forall|k: int, j: int|
        0 <= k < stack.len() && 0 <= j < stack[k].len() ==> atom_wf(#[trigger] stack[k][j])
            && stack[k][j] != Atom::Nil
}

/// Reading any tokens with nonempty break-free words keeps every group a
/// row of readable leaves.
proof fn lemma_parse_toks_wf(stack: Seq<Seq<Atom>>, toks: Seq<Tok>)
    requires
        stack.len() >= 1,
        stack_wf(stack),
        forall|k: int|
            0 <= k < toks.len() ==> (#[trigger] toks[k] matches Tok::Word(w) ==> w.len() >= 1
                && forall|i: int| 0 <= i < w.len() ==> !is_break_char(#[trigger] w[i])),
    ensures
        parse_toks(stack, toks) matches Some(st) ==> stack_wf(st),
    decreases toks.len(),
{
    if toks.len() > 0 {
        match parse_tok(stack, toks[0]) {
            None => {},
            Some(st1) => {
                assert(stack_wf(st1)) by {
                    match toks[0] {
                        Tok::Open => {
                            assert forall|k: int, j: int|
                                0 <= k < st1.len() && 0 <= j < st1[k].len() implies atom_wf(
                                #[trigger] st1[k][j],
                            ) && st1[k][j] != Atom::Nil by {
                                if k < stack.len() {
                                    assert(st1[k] == stack[k]);
                                }
                            }
                        },
                        Tok::Close => {
                            if stack.len() >= 2 {
                                let body = wrap(stack.last());
                                assert(row_wf(body)) by {
                                    if stack.last().len() == 0 {
                                        assert(wrap(stack.last()) == nil_leaves());
                                    } else {
                                        assert(forall|j: int|
                                            0 <= j < stack.last().len() ==> atom_wf(
                                                #[trigger] stack.last()[j],
                                            ) && stack.last()[j] != Atom::Nil);
                                        lemma_row_wf_build(stack.last(), 0);
                                    }
                                }
                                assert forall|k: int, j: int|
                                    0 <= k < st1.len() && 0 <= j < st1[k].len() implies atom_wf(
                                    #[trigger] st1[k][j],
                                ) && st1[k][j] != Atom::Nil by {
                                    if k == st1.len() - 1 && j == st1[k].len() - 1 {
                                        assert(st1[k][j] == Atom::Quo(body));
                                    } else if k == st1.len() - 1 {
                                        assert(st1[k][j] == stack[k][j]);
                                    } else {
                                        assert(st1[k] == stack[k]);
                                    }
                                }
                            }
                        },
                        Tok::Word(w) => {
                            lemma_tok_atom_wf(w);
                            assert forall|k: int, j: int|
                                0 <= k < st1.len() && 0 <= j < st1[k].len() implies atom_wf(
                                #[trigger] st1[k][j],
                            ) && st1[k][j] != Atom::Nil by {
                                if k == st1.len() - 1 && j == st1[k].len() - 1 {
                                    assert(st1[k][j] == tok_atom(w));
                                } else if k == st1.len() - 1 {
                                    assert(st1[k][j] == stack[k][j]);
                                } else {
                                    assert(st1[k] == stack[k]);
                                }
                            }
                        },
                    }
                }
                assert(forall|k: int|
                    0 <= k < toks.skip(1).len() ==> toks.skip(1)[k] == toks[k + 1]);
                lemma_parse_toks_wf(st1, toks.skip(1));
            },
        }
    }
}

/// Whatever parses parses to a readable row.
pub proof fn lemma_parse_wf(s: Seq<char>)
    ensures
        spec_parse(s) matches Some(atoms) ==> row_wf(atoms),
{
    lemma_tokenize_words(s);
    let init: Seq<Seq<Atom>> = seq![seq![]];
    assert(stack_wf(init));
    lemma_parse_toks_wf(init, spec_tokenize(s));
    match parse_toks(init, spec_tokenize(s)) {
        Some(st) => {
            if st.len() == 1 {
                if st[0].len() == 0 {
                    assert(wrap(st[0]) == nil_leaves());
                } else {
                    lemma_row_wf_build(st[0], 0);
                }
            }
        },
        None => {},
    }
}

/// The round trip over text: the canonical rendering of well-formed program
/// text parses back to the very same term, so rendering after parsing is a
/// fixed point — the canonical form.
pub proof fn lemma_round_trip(s: Seq<char>)
    requires
        spec_parse(s) is Some,
    ensures
        spec_parse(render_leaves(spec_parse(s)->Some_0)) == spec_parse(s),
{
    lemma_parse_wf(s);
    lemma_parse_render(spec_parse(s)->Some_0);
}

} // verus!
