//! The two-pass assembler: a character scanner, a tokenizer, a statement
//! parser that builds the label table in its first pass, and an encoder
//! that turns each statement into one 32-bit instruction word in its
//! second pass.

use crate::info::{self, Opcode};
use vstd::prelude::*;

verus! {

/// How many newline characters a piece of text holds.
pub open spec fn count_nl(s: Seq<char>) -> int
    decreases s.len(),
{
    if s.len() == 0 {
        0
    } else {
        count_nl(s.drop_last()) + if s.last() == '\n' {
            1int
        } else {
            0int
        }
    }
}

/// The line number of the position that follows consumed text `s`:
/// one-based, advancing at each newline, and saturating at the largest
/// machine integer.
pub open spec fn spec_line_of(s: Seq<char>) -> int {
    if 1 + count_nl(s) <= usize::MAX {
        1 + count_nl(s)
    } else {
        usize::MAX as int
    }
}

proof fn lemma_count_nl_push(s: Seq<char>, c: char)
    ensures
        count_nl(s.push(c)) == count_nl(s) + if c == '\n' {
            1int
        } else {
            0int
        },
        count_nl(s.push(c)) >= count_nl(s),
        count_nl(s) >= 0,
    decreases s.len(),
{
    assert(s.push(c).drop_last() =~= s);
    assert(s.push(c).last() == c);
    if s.len() > 0 {
        lemma_count_nl_push(s.drop_last(), s.last());
        assert(s.drop_last().push(s.last()) =~= s);
    }
}

/// A character cursor over source text: yields characters one at a time,
/// can look ahead without consuming, and keeps the one-based line number
/// of the current position for diagnostics.
pub struct Scanner {
    text: String,
    pos: usize,
    line: usize,
}

impl Scanner {
    /// The characters not yet consumed.
    pub closed spec fn remaining(&self) -> Seq<char> {
        self.text@.skip(self.pos as int)
    }

    /// The characters consumed so far.
    pub closed spec fn consumed(&self) -> Seq<char> {
        self.text@.take(self.pos as int)
    }

    /// The current line number, as a specification value.
    pub closed spec fn spec_line(&self) -> int {
        self.line as int
    }

    /// The cursor sits inside the text and the line count matches the
    /// newlines consumed.
    pub closed spec fn wf(&self) -> bool {
        &&& self.pos <= self.text@.len()
        &&& self.text@.len() <= usize::MAX
        &&& self.line as int == spec_line_of(self.consumed())
    }

    /// A scanner at the start of `input`, on line 1.
    pub fn new(input: &str) -> (r: Self)
        ensures
            r.wf(),
            r.remaining() == input@,
            r.consumed() == Seq::<char>::empty(),
            r.spec_line() == 1,
    {
        let text = String::from_str(input);
        let n = text.as_str().unicode_len();
        let r = Scanner { text, pos: 0, line: 1 };
        proof {
            assert(n == input@.len());
            assert(r.remaining() =~= input@);
            assert(r.consumed() =~= Seq::<char>::empty());
        }
        r
    }

    /// The first unconsumed character, if any, without consuming it.
    pub fn peek(&self) -> (r: Option<char>)
        requires
            self.wf(),
        ensures
            r == (if self.remaining().len() > 0 {
                Some(self.remaining()[0])
            } else {
                None::<char>
            }),
    {
        self.peekn(0)
    }

    /// The character `n` places ahead, if any, without consuming anything.
    pub fn peekn(&self, n: usize) -> (r: Option<char>)
        requires
            self.wf(),
        ensures
            r == (if self.remaining().len() > n {
                Some(self.remaining()[n as int])
            } else {
                None::<char>
            }),
    {
        let len = self.text.as_str().unicode_len();
        if n < len - self.pos {
            Some(self.text.as_str().get_char(self.pos + n))
        } else {
            None
        }
    }

    /// Consume one character and return it, updating the line count when
    /// it is a newline; past the end, return nothing and change nothing.
    pub fn next(&mut self) -> (r: Option<char>)
        requires
            old(self).wf(),
        ensures
            final(self).wf(),
            old(self).remaining().len() == 0 ==> r is None && *final(self) == *old(self),
            old(self).remaining().len() > 0 ==> r == Some(old(self).remaining()[0])
                && final(self).remaining() == old(self).remaining().skip(1)
                && final(self).consumed() == old(self).consumed().push(old(self).remaining()[0]),
    {
        let len = self.text.as_str().unicode_len();
        if self.pos < len {
            let c = self.text.as_str().get_char(self.pos);
            self.pos = self.pos + 1;
            if c == '\n' && self.line < usize::MAX {
                self.line = self.line + 1;
            }
            proof {
                lemma_count_nl_push(old(self).consumed(), c);
                assert(self.consumed() =~= old(self).consumed().push(c));
                assert(self.remaining() =~= old(self).remaining().skip(1));
            }
            Some(c)
        } else {
            proof {
                assert(old(self).remaining().len() == 0);
            }
            None
        }
    }

    /// If the unconsumed text starts with `prefix`, consume it and report
    /// success; otherwise consume nothing.
    pub fn eat_prefix(&mut self, prefix: &str) -> (r: bool)
        requires
            old(self).wf(),
        ensures
            final(self).wf(),
            r == (old(self).remaining().len() >= prefix@.len() && old(self).remaining().take(
                prefix@.len() as int,
            ) == prefix@),
            r ==> final(self).remaining() == old(self).remaining().skip(prefix@.len() as int)
                && final(self).consumed() == old(self).consumed() + prefix@,
            !r ==> *final(self) == *old(self),
    {
        let plen = prefix.unicode_len();
        let len = self.text.as_str().unicode_len();
        if plen > len - self.pos {
            proof {
                assert(old(self).remaining().len() < prefix@.len());
            }
            return false;
        }
        let mut i: usize = 0;
        while i < plen
            invariant
                self == old(self),
                self.wf(),
                i <= plen,
                plen <= self.remaining().len(),
                plen == prefix@.len(),
                forall|j: int| 0 <= j < i ==> self.remaining()[j] == prefix@[j],
            decreases plen - i,
        {
            if self.text.as_str().get_char(self.pos + i) != prefix.get_char(i) {
                return false;
            }
            i = i + 1;
        }
        proof {
            assert(old(self).remaining().take(plen as int) =~= prefix@);
        }
        let mut k: usize = 0;
        while k < plen
            invariant
                self.wf(),
                k <= plen,
                plen == prefix@.len(),
                old(self).remaining().take(plen as int) == prefix@,
                plen <= old(self).remaining().len(),
                self.remaining() == old(self).remaining().skip(k as int),
                self.consumed() == old(self).consumed() + prefix@.take(k as int),
            decreases plen - k,
        {
            let ghost pre = *self;
            let c = self.next();
            k = k + 1;
            proof {
                assert(old(self).remaining()[k - 1] == prefix@[k - 1]);
                assert(pre.remaining().skip(1) =~= old(self).remaining().skip(k as int));
                assert(pre.consumed().push(pre.remaining()[0]) =~= old(self).consumed()
                    + prefix@.take(k as int));
            }
        }
        proof {
            assert(prefix@.take(plen as int) =~= prefix@);
        }
        true
    }

    /// The line number the cursor has reached.
    pub fn line_num(&self) -> (r: usize)
        ensures
            r as int == self.spec_line(),
    {
        self.line
    }

    /// Consume the longest run of characters satisfying `pred` and return
    /// it. The predicate must accept any character; the run ends at the
    /// first character for which it returns false, or at the end of input.
    pub fn take_while<F: Fn(char) -> bool>(&mut self, pred: F) -> (r: String)
        requires
            old(self).wf(),
            forall|c: char| #[trigger] call_requires(pred, (c,)),
        ensures
            final(self).wf(),
            r@.len() <= old(self).remaining().len(),
            r@ == old(self).remaining().take(r@.len() as int),
            forall|i: int|
                0 <= i < r@.len() ==> call_ensures(pred, (old(self).remaining()[i],), true),
            r@.len() < old(self).remaining().len() ==> call_ensures(
                pred,
                (old(self).remaining()[r@.len() as int],),
                false,
            ),
            final(self).remaining() == old(self).remaining().skip(r@.len() as int),
            final(self).consumed() == old(self).consumed() + r@,
    {
        let start = self.pos;
        let len = self.text.as_str().unicode_len();
        loop
            invariant
                self.wf(),
                self.text == old(self).text,
                start == old(self).pos,
                start <= self.pos <= len,
                len == self.text@.len(),
                forall|c: char| #[trigger] call_requires(pred, (c,)),
                forall|i: int|
                    start <= i < self.pos ==> call_ensures(pred, (#[trigger] self.text@[i],), true),
            ensures
                self.wf(),
                self.text == old(self).text,
                start <= self.pos <= len,
                len == self.text@.len(),
                forall|i: int|
                    start <= i < self.pos ==> call_ensures(pred, (#[trigger] self.text@[i],), true),
                self.pos == len || call_ensures(pred, (self.text@[self.pos as int],), false),
            decreases len - self.pos,
        {
            if self.pos >= len {
                break ;
            }
            let c = self.text.as_str().get_char(self.pos);
            if !pred(c) {
                break ;
            }
            let ghost pre = *self;
            self.pos = self.pos + 1;
            if c == '\n' && self.line < usize::MAX {
                self.line = self.line + 1;
            }
            proof {
                lemma_count_nl_push(pre.consumed(), c);
                assert(self.consumed() =~= pre.consumed().push(c));
            }
        }
        let took = self.text.as_str().substring_char(start, self.pos);
        let r = String::from_str(took);
        proof {
            let k = self.pos - start;
            assert(forall|i: int|
                0 <= i < old(self).remaining().len() ==> old(self).remaining()[i] == self.text@[
                    start + i
                ]);
            assert(r@ =~= old(self).remaining().take(k));
            assert(self.remaining() =~= old(self).remaining().skip(k));
            assert(self.consumed() =~= old(self).consumed() + r@);
        }
        r
    }
}

/// What went wrong while assembling, without the source line.
#[derive(Debug, PartialEq, Eq)]
pub enum ErrKind {
    /// A `u` or `h` suffix on an opcode or operand form that admits none.
    IllegalModifier,
    /// An immediate literal outside the representable range.
    ImmOverflow,
    /// An immediate literal with no digits or a digit not of its base.
    InvalidImm,
    /// A block comment still open at the end of the input.
    OpenComment,
    /// A register operand was required.
    RegExp,
    /// An immediate operand was required.
    ImmExp,
    /// A register or immediate operand was required.
    OperandExp,
    /// A label name was required.
    IdentExp,
    /// A token that no grammar rule expects at this point.
    IllegalToken,
    /// A specific punctuation character was required.
    CharExp(char),
    /// A label name defined twice.
    DuplicateLabel(String),
    /// A label name referenced but never defined.
    UndefinedLabel(String),
}

/// Specification-level error kind, with names as character sequences.
pub ghost enum ErrKindV {
    IllegalModifier,
    ImmOverflow,
    InvalidImm,
    OpenComment,
    RegExp,
    ImmExp,
    OperandExp,
    IdentExp,
    IllegalToken,
    CharExp(char),
    DuplicateLabel(Seq<char>),
    UndefinedLabel(Seq<char>),
}

impl View for ErrKind {
    type V = ErrKindV;

    open spec fn view(&self) -> ErrKindV {
        match self {
            ErrKind::IllegalModifier => ErrKindV::IllegalModifier,
            ErrKind::ImmOverflow => ErrKindV::ImmOverflow,
            ErrKind::InvalidImm => ErrKindV::InvalidImm,
            ErrKind::OpenComment => ErrKindV::OpenComment,
            ErrKind::RegExp => ErrKindV::RegExp,
            ErrKind::ImmExp => ErrKindV::ImmExp,
            ErrKind::OperandExp => ErrKindV::OperandExp,
            ErrKind::IdentExp => ErrKindV::IdentExp,
            ErrKind::IllegalToken => ErrKindV::IllegalToken,
            ErrKind::CharExp(c) => ErrKindV::CharExp(*c),
            ErrKind::DuplicateLabel(s) => ErrKindV::DuplicateLabel(s@),
            ErrKind::UndefinedLabel(s) => ErrKindV::UndefinedLabel(s@),
        }
    }
}

/// An assembly error: what went wrong and on which source line.
#[derive(Debug, PartialEq, Eq)]
pub struct ParseErr {
    pub kind: ErrKind,
    pub line: usize,
}

/// One token of the assembly language.
#[derive(Debug, PartialEq, Eq)]
pub enum Token {
    /// The end of the input.
    Eof,
    /// A name that is neither a register nor an instruction: a label.
    Ident(String),
    /// An instruction mnemonic, with any modifier suffix resolved.
    Inst(info::Instruction),
    /// A register name, as its index.
    Reg(u8),
    /// An immediate literal, as its 16-bit pattern.
    Imm(u16),
    /// Any other single character, newline included.
    Char(char),
}

/// Specification-level token.
pub ghost enum TokenV {
    Eof,
    Ident(Seq<char>),
    Inst(Opcode, u8),
    Reg(u8),
    Imm(u16),
    Char(char),
}

impl View for Token {
    type V = TokenV;

    open spec fn view(&self) -> TokenV {
        match self {
            Token::Eof => TokenV::Eof,
            Token::Ident(s) => TokenV::Ident(s@),
            Token::Inst(i) => TokenV::Inst(i.opcode, i.modbits),
            Token::Reg(r) => TokenV::Reg(*r),
            Token::Imm(v) => TokenV::Imm(*v),
            Token::Char(c) => TokenV::Char(*c),
        }
    }
}

/// Whether `c` is an ASCII digit or letter.
pub open spec fn spec_is_alnum(c: char) -> bool {
    (48 <= c as int <= 57) || (65 <= c as int <= 90) || (97 <= c as int <= 122)
}

/// Whether `c` may appear in an identifier: digits, letters, `_`, `.`, `$`.
pub open spec fn spec_is_ident_char(c: char) -> bool {
    spec_is_alnum(c) || c == '_' || c == '.' || c == '$'
}

/// Whether `c` may appear in an identifier.
pub fn is_ident_char(c: char) -> (r: bool)
    ensures
        r == spec_is_ident_char(c),
{
    is_alnum_char(c) || c == '_' || c == '.' || c == '$'
}

/// Whether `c` is an ASCII digit.
fn is_digit_char(c: char) -> (r: bool)
    ensures
        r == (48 <= c as int <= 57),
{
    let u = c as u32;
    48 <= u && u <= 57
}

/// Whether `c` is an ASCII digit or letter.
fn is_alnum_char(c: char) -> (r: bool)
    ensures
        r == spec_is_alnum(c),
{
    let u = c as u32;
    (48 <= u && u <= 57) || (65 <= u && u <= 90) || (97 <= u && u <= 122)
}

/// The numeric value of a digit character, in any base up to 36: ASCII
/// digits, then lower-case and upper-case letters.
pub open spec fn spec_digit_val(c: char) -> Option<int> {
    let u = c as int;
    if 48 <= u <= 57 {
        Some(u - 48)
    } else if 97 <= u <= 122 {
        Some(u - 87)
    } else if 65 <= u <= 90 {
        Some(u - 55)
    } else {
        None
    }
}

/// Fold a digit run left to right in `base` starting from `acc`: the
/// first character that is no digit of the base is an invalid-immediate
/// error, and a value exceeding 16 unsigned bits is an overflow error.
pub open spec fn spec_digits_val(s: Seq<char>, base: int, acc: int) -> Result<int, ErrKindV>
    decreases s.len(),
{
    if s.len() == 0 {
        Ok(acc)
    } else {
        match spec_digit_val(s[0]) {
            None => Err(ErrKindV::InvalidImm),
            Some(d) => if d >= base {
                Err(ErrKindV::InvalidImm)
            } else if acc * base + d > 0xFFFF {
                Err(ErrKindV::ImmOverflow)
            } else {
                spec_digits_val(s.skip(1), base, acc * base + d)
            },
        }
    }
}

/// A successful fold stays within 16 unsigned bits.
proof fn lemma_digits_val_bound(s: Seq<char>, base: int, acc: int)
    requires
        0 <= acc <= 0xFFFF,
        spec_digits_val(s, base, acc) is Ok,
    ensures
        0 <= spec_digits_val(s, base, acc)->Ok_0 <= 0xFFFF,
    decreases s.len(),
{
    if s.len() > 0 {
        match spec_digit_val(s[0]) {
            None => {},
            Some(d) => {
                if d < base && acc * base + d <= 0xFFFF {
                    lemma_digits_val_bound(s.skip(1), base, acc * base + d);
                }
            },
        }
    }
}

/// The numeric value of a digit character, if it is one.
fn digit_val(c: char) -> (r: Option<u32>)
    ensures
        (match spec_digit_val(c) {
            Some(d) => r matches Some(v) && v == d,
            None => r is None,
        }),
{
    let u = c as u32;
    if 48 <= u && u <= 57 {
        Some(u - 48)
    } else if 97 <= u && u <= 122 {
        Some(u - 87)
    } else if 65 <= u && u <= 90 {
        Some(u - 55)
    } else {
        None
    }
}

/// Parse a run of digit characters in `base` into a 16-bit magnitude,
/// reading left to right and failing exactly as the fold specifies; an
/// empty run is an invalid immediate.
fn parse_digits(digits: &str, base: u32) -> (r: Result<u16, ErrKind>)
    requires
        2 <= base <= 16,
    ensures
        digits@.len() == 0 ==> (r matches Err(k) && k@ == ErrKindV::InvalidImm),
        digits@.len() > 0 ==> (match spec_digits_val(digits@, base as int, 0) {
            Ok(v) => r matches Ok(p) && p == v,
            Err(e) => r matches Err(k) && k@ == e,
        }),
{
    let len = digits.unicode_len();
    if len == 0 {
        return Err(ErrKind::InvalidImm);
    }
    let mut acc: u32 = 0;
    let mut i: usize = 0;
    proof {
        assert(digits@.skip(0) =~= digits@);
    }
    while i < len
        invariant
            i <= len,
            len == digits@.len(),
            2 <= base <= 16,
            0 <= acc <= 0xFFFF,
            spec_digits_val(digits@, base as int, 0) == spec_digits_val(
                digits@.skip(i as int),
                base as int,
                acc as int,
            ),
        decreases len - i,
    {
        let c = digits.get_char(i);
        proof {
            assert(digits@.skip(i as int)[0] == digits@[i as int]);
        }
        match digit_val(c) {
            None => {
                return Err(ErrKind::InvalidImm);
            },
            Some(d) => {
                if d >= base {
                    return Err(ErrKind::InvalidImm);
                }
                proof {
                    assert(acc * base <= 0xFFFF * 16) by (nonlinear_arith)
                        requires
                            0 <= acc <= 0xFFFF,
                            0 <= base <= 16,
                    ;
                }
                let next_acc = acc * base + d;
                if next_acc > 0xFFFF {
                    return Err(ErrKind::ImmOverflow);
                }
                proof {
                    assert(digits@.skip(i as int).skip(1) =~= digits@.skip(i + 1));
                }
                acc = next_acc;
            },
        }
        i = i + 1;
    }
    proof {
        assert(digits@.skip(len as int) =~= Seq::<char>::empty());
    }
    Ok(acc as u16)
}

/// Character-wise string equality.
fn str_eq(a: &str, b: &str) -> (r: bool)
    ensures
        r == (a@ == b@),
{
    let la = a.unicode_len();
    let lb = b.unicode_len();
    if la != lb {
        return false;
    }
    let mut i: usize = 0;
    while i < la
        invariant
            i <= la,
            la == a@.len(),
            la == b@.len(),
            forall|j: int| 0 <= j < i ==> a@[j] == b@[j],
        decreases la - i,
    {
        if a.get_char(i) != b.get_char(i) {
            return false;
        }
        i = i + 1;
    }
    proof {
        assert(a@ =~= b@);
    }
    true
}

/// The register index a name denotes: `r0` through `r15`, with `sp` as
/// another name for `r14`.
pub open spec fn spec_reg_lookup(s: Seq<char>) -> Option<u8> {
    if s == "r0"@ {
        Some(0u8)
    } else if s == "r1"@ {
        Some(1u8)
    } else if s == "r2"@ {
        Some(2u8)
    } else if s == "r3"@ {
        Some(3u8)
    } else if s == "r4"@ {
        Some(4u8)
    } else if s == "r5"@ {
        Some(5u8)
    } else if s == "r6"@ {
        Some(6u8)
    } else if s == "r7"@ {
        Some(7u8)
    } else if s == "r8"@ {
        Some(8u8)
    } else if s == "r9"@ {
        Some(9u8)
    } else if s == "r10"@ {
        Some(10u8)
    } else if s == "r11"@ {
        Some(11u8)
    } else if s == "r12"@ {
        Some(12u8)
    } else if s == "r13"@ {
        Some(13u8)
    } else if s == "r14"@ {
        Some(14u8)
    } else if s == "sp"@ {
        Some(14u8)
    } else if s == "r15"@ {
        Some(15u8)
    } else {
        None
    }
}

/// Look a name up in the register table.
fn reg_lookup(s: &str) -> (r: Option<u8>)
    ensures
        r == spec_reg_lookup(s@),
{
    if str_eq(s, "r0") {
        Some(0)
    } else if str_eq(s, "r1") {
        Some(1)
    } else if str_eq(s, "r2") {
        Some(2)
    } else if str_eq(s, "r3") {
        Some(3)
    } else if str_eq(s, "r4") {
        Some(4)
    } else if str_eq(s, "r5") {
        Some(5)
    } else if str_eq(s, "r6") {
        Some(6)
    } else if str_eq(s, "r7") {
        Some(7)
    } else if str_eq(s, "r8") {
        Some(8)
    } else if str_eq(s, "r9") {
        Some(9)
    } else if str_eq(s, "r10") {
        Some(10)
    } else if str_eq(s, "r11") {
        Some(11)
    } else if str_eq(s, "r12") {
        Some(12)
    } else if str_eq(s, "r13") {
        Some(13)
    } else if str_eq(s, "r14") {
        Some(14)
    } else if str_eq(s, "sp") {
        Some(14)
    } else if str_eq(s, "r15") {
        Some(15)
    } else {
        None
    }
}

/// The opcode a mnemonic denotes, if any.
pub open spec fn spec_mnemonic(s: Seq<char>) -> Option<Opcode> {
    if s == "add"@ {
        Some(Opcode::ADD)
    } else if s == "sub"@ {
        Some(Opcode::SUB)
    } else if s == "mul"@ {
        Some(Opcode::MUL)
    } else if s == "div"@ {
        Some(Opcode::DIV)
    } else if s == "mod"@ {
        Some(Opcode::MOD)
    } else if s == "cmp"@ {
        Some(Opcode::CMP)
    } else if s == "and"@ {
        Some(Opcode::AND)
    } else if s == "or"@ {
        Some(Opcode::OR)
    } else if s == "not"@ {
        Some(Opcode::NOT)
    } else if s == "mov"@ {
        Some(Opcode::MOV)
    } else if s == "lsl"@ {
        Some(Opcode::LSL)
    } else if s == "lsr"@ {
        Some(Opcode::LSR)
    } else if s == "asr"@ {
        Some(Opcode::ASR)
    } else if s == "nop"@ {
        Some(Opcode::NOP)
    } else if s == "ld"@ {
        Some(Opcode::LD)
    } else if s == "st"@ {
        Some(Opcode::ST)
    } else if s == "beq"@ {
        Some(Opcode::BEQ)
    } else if s == "bgt"@ {
        Some(Opcode::BGT)
    } else if s == "b"@ {
        Some(Opcode::B)
    } else if s == "call"@ {
        Some(Opcode::CALL)
    } else if s == "ret"@ {
        Some(Opcode::RET)
    } else if s == "sys"@ {
        Some(Opcode::SYS)
    } else {
        None
    }
}

/// Look a name up in the mnemonic table.
fn mnemonic_lookup(s: &str) -> (r: Option<Opcode>)
    ensures
        r == spec_mnemonic(s@),
{
    if str_eq(s, "add") {
        Some(Opcode::ADD)
    } else if str_eq(s, "sub") {
        Some(Opcode::SUB)
    } else if str_eq(s, "mul") {
        Some(Opcode::MUL)
    } else if str_eq(s, "div") {
        Some(Opcode::DIV)
    } else if str_eq(s, "mod") {
        Some(Opcode::MOD)
    } else if str_eq(s, "cmp") {
        Some(Opcode::CMP)
    } else if str_eq(s, "and") {
        Some(Opcode::AND)
    } else if str_eq(s, "or") {
        Some(Opcode::OR)
    } else if str_eq(s, "not") {
        Some(Opcode::NOT)
    } else if str_eq(s, "mov") {
        Some(Opcode::MOV)
    } else if str_eq(s, "lsl") {
        Some(Opcode::LSL)
    } else if str_eq(s, "lsr") {
        Some(Opcode::LSR)
    } else if str_eq(s, "asr") {
        Some(Opcode::ASR)
    } else if str_eq(s, "nop") {
        Some(Opcode::NOP)
    } else if str_eq(s, "ld") {
        Some(Opcode::LD)
    } else if str_eq(s, "st") {
        Some(Opcode::ST)
    } else if str_eq(s, "beq") {
        Some(Opcode::BEQ)
    } else if str_eq(s, "bgt") {
        Some(Opcode::BGT)
    } else if str_eq(s, "b") {
        Some(Opcode::B)
    } else if str_eq(s, "call") {
        Some(Opcode::CALL)
    } else if str_eq(s, "ret") {
        Some(Opcode::RET)
    } else if str_eq(s, "sys") {
        Some(Opcode::SYS)
    } else {
        None
    }
}

/// Resolve mnemonic text with an optional one-letter modifier suffix:
/// strip a trailing `u` or `h`, look the rest up, and reject the suffix
/// when the opcode found admits no modifier. Text that names no opcode
/// even after stripping is no mnemonic at all.
pub open spec fn spec_instruction(s: Seq<char>) -> Result<Option<(Opcode, u8)>, ErrKindV> {
    let stripped = if s.len() > 0 && s.last() == 'u' {
        s.drop_last()
    } else if s.len() > 0 && s.last() == 'h' {
        s.drop_last()
    } else {
        s
    };
    let modbits = if s.len() > 0 && s.last() == 'u' {
        info::MOD_U
    } else if s.len() > 0 && s.last() == 'h' {
        info::MOD_H
    } else {
        info::MOD_DEF
    };
    match spec_mnemonic(stripped) {
        None => Ok(None),
        Some(op) => if modbits != info::MOD_DEF && !info::spec_supports_mod(info::opcode_ord(op)) {
            Err(ErrKindV::IllegalModifier)
        } else {
            Ok(Some((op, modbits)))
        },
    }
}

/// Resolve mnemonic text, with any modifier suffix, into an instruction
/// token; text that names no instruction yields nothing.
pub fn instruction(instr: &str) -> (r: Result<Option<Token>, ErrKind>)
    ensures
        (match spec_instruction(instr@) {
            Ok(None) => r matches Ok(None),
            Ok(Some((op, m))) => r matches Ok(Some(t)) && t@ == TokenV::Inst(op, m) && (t matches
                Token::Inst(i) && i.wf()),
            Err(e) => r matches Err(k) && k@ == e,
        }),
{
    let len = instr.unicode_len();
    let mut modbits: u8 = info::MOD_DEF;
    let mut stripped: &str = instr;
    if len > 0 {
        let last = instr.get_char(len - 1);
        if last == 'u' {
            modbits = info::MOD_U;
            stripped = instr.substring_char(0, len - 1);
        } else if last == 'h' {
            modbits = info::MOD_H;
            stripped = instr.substring_char(0, len - 1);
        }
    }
    proof {
        if len > 0 && (instr@.last() == 'u' || instr@.last() == 'h') {
            assert(stripped@ =~= instr@.drop_last());
        }
    }
    match mnemonic_lookup(stripped) {
        None => Ok(None),
        Some(op) => {
            let ord = info::opcode_num(op);
            if modbits != info::MOD_DEF && !info::supports_mod(ord) {
                Err(ErrKind::IllegalModifier)
            } else {
                Ok(Some(Token::Inst(info::descriptor(op, modbits))))
            }
        },
    }
}

/// The length of the longest prefix of digit or letter characters.
pub open spec fn spec_alnum_len(s: Seq<char>) -> int
    decreases s.len(),
{
    if s.len() == 0 || !spec_is_alnum(s[0]) {
        0
    } else {
        1 + spec_alnum_len(s.skip(1))
    }
}

/// The length of the longest prefix of identifier characters.
pub open spec fn spec_ident_len(s: Seq<char>) -> int
    decreases s.len(),
{
    if s.len() == 0 || !spec_is_ident_char(s[0]) {
        0
    } else {
        1 + spec_ident_len(s.skip(1))
    }
}

proof fn lemma_alnum_len_is(s: Seq<char>, k: int)
    requires
        0 <= k <= s.len(),
        forall|i: int| 0 <= i < k ==> spec_is_alnum(#[trigger] s[i]),
        k < s.len() ==> !spec_is_alnum(s[k]),
    ensures
        spec_alnum_len(s) == k,
    decreases k,
{
    if k > 0 {
        assert(forall|i: int| 0 <= i < k - 1 ==> s.skip(1)[i] == s[i + 1]);
        lemma_alnum_len_is(s.skip(1), k - 1);
    }
}

proof fn lemma_ident_len_is(s: Seq<char>, k: int)
    requires
        0 <= k <= s.len(),
        forall|i: int| 0 <= i < k ==> spec_is_ident_char(#[trigger] s[i]),
        k < s.len() ==> !spec_is_ident_char(s[k]),
    ensures
        spec_ident_len(s) == k,
    decreases k,
{
    if k > 0 {
        assert(forall|i: int| 0 <= i < k - 1 ==> s.skip(1)[i] == s[i + 1]);
        lemma_ident_len_is(s.skip(1), k - 1);
    }
}

/// How many characters of `s` a leading sign takes.
pub open spec fn spec_lit_sign_len(s: Seq<char>) -> int {
    if s.len() > 0 && (s[0] == '+' || s[0] == '-') {
        1
    } else {
        0
    }
}

/// Whether the literal at the start of `s` is negative.
pub open spec fn spec_lit_neg(s: Seq<char>) -> bool {
    s.len() > 0 && s[0] == '-'
}

/// The base selected by a prefix of `s1` (the text after any sign):
/// `0x` is 16, `0o` is 8, `0b` is 2, anything else decimal.
pub open spec fn spec_lit_base(s1: Seq<char>) -> int {
    if s1.len() >= 2 && s1[0] == '0' && s1[1] == 'x' {
        16
    } else if s1.len() >= 2 && s1[0] == '0' && s1[1] == 'o' {
        8
    } else if s1.len() >= 2 && s1[0] == '0' && s1[1] == 'b' {
        2
    } else {
        10
    }
}

/// How many characters the base prefix takes.
pub open spec fn spec_lit_base_len(s1: Seq<char>) -> int {
    if spec_lit_base(s1) != 10 {
        2
    } else {
        0
    }
}

/// How many characters the literal at the start of `s` occupies: the
/// sign, the base prefix and the whole following alphanumeric run,
/// whether or not that run is a valid numeral.
pub open spec fn spec_immediate_used(s: Seq<char>) -> int {
    let s1 = s.skip(spec_lit_sign_len(s));
    let s2 = s1.skip(spec_lit_base_len(s1));
    spec_lit_sign_len(s) + spec_lit_base_len(s1) + spec_alnum_len(s2)
}

/// The 16-bit pattern of the immediate literal at the start of `s`, or
/// the error it raises. The magnitude must fit 16 unsigned bits; a
/// negative literal must not exceed 32768 and is stored in
/// two's-complement form.
pub open spec fn spec_immediate_result(s: Seq<char>) -> Result<u16, ErrKindV> {
    let neg = spec_lit_neg(s);
    let s1 = s.skip(spec_lit_sign_len(s));
    let base = spec_lit_base(s1);
    let s2 = s1.skip(spec_lit_base_len(s1));
    let digits = s2.take(spec_alnum_len(s2));
    if digits.len() == 0 {
        Err(ErrKindV::InvalidImm)
    } else {
        match spec_digits_val(digits, base, 0) {
            Err(e) => Err(e),
            Ok(v) => if neg {
                if v > 32768 {
                    Err(ErrKindV::ImmOverflow)
                } else {
                    Ok(((0x10000 - v) % 0x10000) as u16)
                }
            } else {
                Ok(v as u16)
            },
        }
    }
}

/// Read one immediate literal: an optional sign, an optional base
/// prefix, and a digit run, stored as a 16-bit pattern.
pub fn immediate(scn: &mut Scanner) -> (r: Result<Token, ErrKind>)
    requires
        old(scn).wf(),
    ensures
        final(scn).wf(),
        final(scn).remaining() == old(scn).remaining().skip(
            spec_immediate_used(old(scn).remaining()),
        ),
        final(scn).consumed().len() == old(scn).consumed().len() + spec_immediate_used(
            old(scn).remaining(),
        ),
        (match spec_immediate_result(old(scn).remaining()) {
            Ok(p) => r matches Ok(t) && t@ == TokenV::Imm(p),
            Err(e) => r matches Err(k) && k@ == e,
        }),
{
    let ghost s = old(scn).remaining();
    let mut base: u32 = 10;
    let mut is_neg = false;
    if let Some(c) = scn.peek() {
        if c == '+' || c == '-' {
            let _ = scn.next();
            is_neg = c == '-';
        }
    }
    let ghost s1 = s.skip(spec_lit_sign_len(s));
    proof {
        assert(scn.remaining() =~= s1);
    }
    let first = scn.peek();
    if first == Some('0') {
        match scn.peekn(1) {
            Some('x') => base = 16,
            Some('o') => base = 8,
            Some('b') => base = 2,
            _ => {},
        }
        if base != 10 {
            let _ = scn.next();
            let _ = scn.next();
        }
    }
    let ghost s2 = s1.skip(spec_lit_base_len(s1));
    proof {
        assert(base == spec_lit_base(s1));
        assert(scn.remaining() =~= s2);
    }
    let num_str = scn.take_while(is_alnum_char);
    proof {
        lemma_alnum_len_is(s2, num_str@.len() as int);
        assert(num_str@ =~= s2.take(spec_alnum_len(s2)));
        assert(scn.remaining() =~= s.skip(spec_immediate_used(s)));
    }
    let num: u16 = match parse_digits(num_str.as_str(), base) {
        Ok(n) => n,
        Err(e) => {
            return Err(e);
        },
    };
    if is_neg {
        // Too large in magnitude for a signed 16-bit value.
        if num > 32768 {
            return Err(ErrKind::ImmOverflow);
        }
        // The two's-complement pattern of the magnitude.
        let pattern = (!num).wrapping_add(1);
        proof {
            assert((!num) as int == 0xFFFF - num) by (bit_vector);
        }
        return Ok(Token::Imm(pattern));
    }
    Ok(Token::Imm(num))
}

/// The token that an identifier-character run denotes: a register name,
/// an instruction mnemonic with any modifier suffix, or otherwise a
/// plain identifier.
pub open spec fn spec_identifier_result(s: Seq<char>) -> Result<TokenV, ErrKindV> {
    let id = s.take(spec_ident_len(s));
    match spec_reg_lookup(id) {
        Some(reg) => Ok(TokenV::Reg(reg)),
        None => match spec_instruction(id) {
            Err(e) => Err(e),
            Ok(Some((op, m))) => Ok(TokenV::Inst(op, m)),
            Ok(None) => Ok(TokenV::Ident(id)),
        },
    }
}

/// An instruction token always carries a descriptor that agrees with the
/// instruction table.
pub open spec fn token_inst_wf(t: Token) -> bool {
    t matches Token::Inst(i) ==> i.wf()
}

/// Read one identifier-character run and classify it.
pub fn identifier(citer: &mut Scanner) -> (r: Result<Token, ErrKind>)
    requires
        old(citer).wf(),
    ensures
        final(citer).wf(),
        final(citer).remaining() == old(citer).remaining().skip(
            spec_ident_len(old(citer).remaining()),
        ),
        final(citer).consumed().len() == old(citer).consumed().len() + spec_ident_len(
            old(citer).remaining(),
        ),
        (match spec_identifier_result(old(citer).remaining()) {
            Ok(tv) => r matches Ok(t) && t@ == tv && token_inst_wf(t),
            Err(e) => r matches Err(k) && k@ == e,
        }),
{
    let ghost s = old(citer).remaining();
    let ident = citer.take_while(is_ident_char);
    proof {
        lemma_ident_len_is(s, ident@.len() as int);
        assert(ident@ =~= s.take(spec_ident_len(s)));
    }
    if let Some(reg) = reg_lookup(ident.as_str()) {
        return Ok(Token::Reg(reg));
    }
    match instruction(ident.as_str()) {
        Ok(Some(tok)) => Ok(tok),
        Ok(None) => Ok(Token::Ident(ident)),
        Err(e) => Err(e),
    }
}

/// The length of the longest prefix without a newline.
pub open spec fn spec_nonnl_len(s: Seq<char>) -> int
    decreases s.len(),
{
    if s.len() == 0 || s[0] == '\n' {
        0
    } else {
        1 + spec_nonnl_len(s.skip(1))
    }
}

proof fn lemma_nonnl_len_is(s: Seq<char>, k: int)
    requires
        0 <= k <= s.len(),
        forall|i: int| 0 <= i < k ==> #[trigger] s[i] != '\n',
        k < s.len() ==> s[k] == '\n',
    ensures
        spec_nonnl_len(s) == k,
    decreases k,
{
    if k > 0 {
        assert(forall|i: int| 0 <= i < k - 1 ==> s.skip(1)[i] == s[i + 1]);
        lemma_nonnl_len_is(s.skip(1), k - 1);
    }
}

/// The position of the first `*/` in `s`, if any.
pub open spec fn spec_close_at(s: Seq<char>) -> Option<int>
    decreases s.len(),
{
    if s.len() < 2 {
        None
    } else if s[0] == '*' && s[1] == '/' {
        Some(0)
    } else {
        match spec_close_at(s.skip(1)) {
            Some(i) => Some(i + 1),
            None => None,
        }
    }
}

/// How many characters the comment at the start of `s` occupies: a line
/// comment runs to just before the newline; a closed block comment to
/// just past its `*/`; an unclosed one to the end of the input; a lone
/// `/` consumes nothing.
pub open spec fn spec_comment_used(s: Seq<char>) -> int {
    if s.len() > 0 && s[0] == '@' {
        1 + spec_nonnl_len(s.skip(1))
    } else if s.len() >= 2 && s[0] == '/' && s[1] == '*' {
        match spec_close_at(s.skip(2)) {
            Some(i) => 2 + i + 2,
            None => s.len() as int,
        }
    } else {
        0
    }
}

/// Whether the comment at the start of `s` is well formed: a block
/// comment must be closed, and a `/` must open a block comment.
pub open spec fn spec_comment_result(s: Seq<char>) -> Result<(), ErrKindV> {
    if s.len() > 0 && s[0] == '@' {
        Ok(())
    } else if s.len() >= 2 && s[0] == '/' && s[1] == '*' {
        match spec_close_at(s.skip(2)) {
            Some(_) => Ok(()),
            None => Err(ErrKindV::OpenComment),
        }
    } else {
        Err(ErrKindV::CharExp('*'))
    }
}

/// The first `*/` of `s` lies within it.
proof fn lemma_close_at_bounds(s: Seq<char>)
    ensures
        spec_close_at(s) matches Some(i) ==> 0 <= i && i + 2 <= s.len(),
    decreases s.len(),
{
    if s.len() >= 2 && !(s[0] == '*' && s[1] == '/') {
        lemma_close_at_bounds(s.skip(1));
    }
}

/// Stepping over a character that does not open the closing `*/` moves
/// the first close, if any, one position nearer.
proof fn lemma_close_at_step(s: Seq<char>)
    requires
        s.len() >= 1,
        !(s.len() >= 2 && s[0] == '*' && s[1] == '/'),
    ensures
        spec_close_at(s) == (match spec_close_at(s.skip(1)) {
            Some(k) => Some(k + 1),
            None => None::<int>,
        }),
{
    if s.len() < 2 {
        assert(spec_close_at(s.skip(1)) is None);
    }
}

/// Skip one comment: a line comment from `@` to the end of the line, or
/// a block comment from `/*` through the matching `*/`.
pub fn eat_comment(scn: &mut Scanner) -> (r: Result<(), ErrKind>)
    requires
        old(scn).wf(),
    ensures
        final(scn).wf(),
        final(scn).remaining() == old(scn).remaining().skip(
            spec_comment_used(old(scn).remaining()),
        ),
        final(scn).consumed().len() == old(scn).consumed().len() + spec_comment_used(
            old(scn).remaining(),
        ),
        (match spec_comment_result(old(scn).remaining()) {
            Ok(_) => r is Ok,
            Err(e) => r matches Err(k) && k@ == e,
        }),
{
    let ghost s = old(scn).remaining();
    if scn.eat_prefix("@") {
        proof {
            reveal_strlit("@");
            assert(s.len() >= 1 && s.take(1) == "@"@);
            assert(s.take(1)[0] == s[0]);
            assert(s[0] == '@');
        }
        let ghost s1 = s.skip(1);
        proof {
            assert(scn.remaining() =~= s1);
        }
        let run = scn.take_while(not_newline);
        proof {
            lemma_nonnl_len_is(s1, run@.len() as int);
            assert(scn.remaining() =~= s.skip(spec_comment_used(s)));
        }
        Ok(())
    } else if scn.eat_prefix("/*") {
        proof {
            reveal_strlit("@");
            reveal_strlit("/*");
            assert(s.len() >= 2 && s.take(2) == "/*"@);
            assert(s.take(2)[0] == s[0]);
            assert(s.take(2)[1] == s[1]);
            assert(s[0] == '/' && s[1] == '*');
            assert(s[0] != '@');
        }
        let ghost s2 = s.skip(2);
        let ghost mut j: int = 0;
        proof {
            assert(scn.remaining() =~= s2);
            assert(s2.skip(0) =~= s2);
            lemma_close_at_bounds(s2);
        }
        loop
            invariant_except_break
                scn.remaining() == s2.skip(j),
                scn.consumed().len() == old(scn).consumed().len() + 2 + j,
                (match spec_close_at(s2) {
                    Some(i) => j <= i && spec_close_at(s2.skip(j)) == Some(i - j),
                    None => spec_close_at(s2.skip(j)) is None,
                }),
            invariant
                scn.wf(),
                0 <= j <= s2.len(),
                s == old(scn).remaining(),
                s.len() >= 2 && s[0] == '/' && s[1] == '*',
                s2 == s.skip(2),
                (spec_close_at(s2) matches Some(i) ==> 0 <= i && i + 2 <= s2.len()),
            ensures
                scn.wf(),
                (spec_close_at(s2) matches Some(i) && scn.remaining() == s2.skip(i + 2)
                    && scn.consumed().len() == old(scn).consumed().len() + 2 + i + 2),
            decreases s2.len() - j,
        {
            let ghost rem = scn.remaining();
            if scn.eat_prefix("*/") {
                proof {
                    reveal_strlit("*/");
                    assert(rem.len() >= 2 && rem.take(2) == "*/"@);
                    assert(rem.take(2)[0] == rem[0]);
                    assert(rem.take(2)[1] == rem[1]);
                    assert(rem[0] == '*' && rem[1] == '/');
                    assert(spec_close_at(rem) == Some(0int));
                    let i = spec_close_at(s2)->Some_0;
                    assert(j == i);
                    assert(scn.remaining() =~= s2.skip(i + 2));
                }
                break ;
            }
            proof {
                reveal_strlit("*/");
                if rem.len() >= 2 && rem[0] == '*' && rem[1] == '/' {
                    assert(rem.take(2) =~= "*/"@);
                    assert(false);
                }
            }
            match scn.next() {
                None => {
                    proof {
                        assert(rem.len() == 0);
                        assert(spec_close_at(rem) is None);
                        assert(spec_close_at(s2) is None);
                        assert(j == s2.len());
                        assert(spec_comment_used(s) == s.len());
                        assert(scn.remaining() =~= s.skip(s.len() as int));
                    }
                    return Err(ErrKind::OpenComment);
                },
                Some(_) => {
                    proof {
                        assert(rem.skip(1) =~= s2.skip(j + 1));
                        lemma_close_at_step(rem);
                        lemma_close_at_bounds(rem.skip(1));
                        j = j + 1;
                    }
                },
            }
        }
        proof {
            let i = spec_close_at(s2)->Some_0;
            assert(spec_comment_used(s) == 2 + i + 2);
            assert(s2.skip(i + 2) =~= s.skip(spec_comment_used(s)));
        }
        Ok(())
    } else {
        // The first character is `/`, so a `*` is missing.
        proof {
            reveal_strlit("@");
            reveal_strlit("/*");
            if s.len() >= 1 && s[0] == '@' {
                assert(s.take(1) =~= "@"@);
                assert(false);
            }
            if s.len() >= 2 && s[0] == '/' && s[1] == '*' {
                assert(s.take(2) =~= "/*"@);
                assert(false);
            }
            assert(spec_comment_used(s) == 0);
            assert(scn.remaining() =~= s.skip(0));
        }
        Err(ErrKind::CharExp('*'))
    }
}

/// Whether `c` is anything but a newline.
fn not_newline(c: char) -> (r: bool)
    ensures
        r == (c != '\n'),
{
    c != '\n'
}

proof fn lemma_nonnl_len_bound(s: Seq<char>)
    ensures
        0 <= spec_nonnl_len(s) <= s.len(),
    decreases s.len(),
{
    if !(s.len() == 0 || s[0] == '\n') {
        lemma_nonnl_len_bound(s.skip(1));
    }
}

proof fn lemma_alnum_len_bound(s: Seq<char>)
    ensures
        0 <= spec_alnum_len(s) <= s.len(),
    decreases s.len(),
{
    if !(s.len() == 0 || !spec_is_alnum(s[0])) {
        lemma_alnum_len_bound(s.skip(1));
    }
}

proof fn lemma_ident_len_bound(s: Seq<char>)
    ensures
        0 <= spec_ident_len(s) <= s.len(),
    decreases s.len(),
{
    if !(s.len() == 0 || !spec_is_ident_char(s[0])) {
        lemma_ident_len_bound(s.skip(1));
    }
}

/// A comment at the start of the text occupies at least one and at most
/// all of its characters.
proof fn lemma_comment_used_bound(s: Seq<char>)
    requires
        s.len() > 0,
        s[0] == '@' || s[0] == '/',
        spec_comment_result(s) is Ok,
    ensures
        1 <= spec_comment_used(s) <= s.len(),
{
    if s[0] == '@' {
        lemma_nonnl_len_bound(s.skip(1));
    } else {
        lemma_close_at_bounds(s.skip(2));
    }
}

/// How an immediate literal's characters bound its footprint.
proof fn lemma_immediate_used_bound(s: Seq<char>)
    ensures
        0 <= spec_immediate_used(s) <= s.len(),
{
    let s1 = s.skip(spec_lit_sign_len(s));
    let s2 = s1.skip(spec_lit_base_len(s1));
    lemma_alnum_len_bound(s2);
}

/// The next token of the text, with the number of characters it consumes:
/// horizontal whitespace and comments are skipped; a sign or digit starts
/// an immediate literal; an identifier character starts a name; any other
/// character is a one-character token; exhausted input is the end token.
pub open spec fn spec_next_tok(s: Seq<char>) -> (Result<TokenV, ErrKindV>, int)
    decreases s.len(),
    via spec_next_tok_decreases
{
    if s.len() == 0 {
        (Ok(TokenV::Eof), 0)
    } else {
        let c = s[0];
        if c == '\t' || c == ' ' {
            let step = spec_next_tok(s.skip(1));
            (step.0, 1 + step.1)
        } else if c == '@' || c == '/' {
            match spec_comment_result(s) {
                Err(e) => (Err(e), spec_comment_used(s)),
                Ok(_) => {
                    let used = spec_comment_used(s);
                    let step = spec_next_tok(s.skip(used));
                    (step.0, used + step.1)
                },
            }
        } else if c == '+' || c == '-' || (48 <= c as int <= 57) {
            (
                match spec_immediate_result(s) {
                    Ok(p) => Ok(TokenV::Imm(p)),
                    Err(e) => Err(e),
                },
                spec_immediate_used(s),
            )
        } else if spec_is_ident_char(c) {
            (spec_identifier_result(s), spec_ident_len(s))
        } else {
            (Ok(TokenV::Char(c)), 1)
        }
    }
}

#[via_fn]
proof fn spec_next_tok_decreases(s: Seq<char>) {
    if s.len() > 0 && (s[0] == '@' || s[0] == '/') && spec_comment_result(s) is Ok {
        lemma_comment_used_bound(s);
    }
}

/// What the next token consumes stays within the text, and only the end
/// token consumes nothing.
proof fn lemma_next_tok_used(s: Seq<char>)
    ensures
        0 <= spec_next_tok(s).1 <= s.len(),
        (spec_next_tok(s).0 matches Ok(tv) && tv != TokenV::Eof) ==> spec_next_tok(s).1 >= 1,
    decreases s.len(),
{
    if s.len() > 0 {
        let c = s[0];
        if c == '\t' || c == ' ' {
            lemma_next_tok_used(s.skip(1));
        } else if c == '@' || c == '/' {
            match spec_comment_result(s) {
                Err(_) => {
                    if c == '@' {
                        assert(spec_comment_result(s) is Ok);
                    }
                    lemma_close_at_bounds(s.skip(2));
                },
                Ok(_) => {
                    lemma_comment_used_bound(s);
                    lemma_next_tok_used(s.skip(spec_comment_used(s)));
                },
            }
        } else if c == '+' || c == '-' || (48 <= c as int <= 57) {
            lemma_immediate_used_bound(s);
            let s1 = s.skip(spec_lit_sign_len(s));
            let s2 = s1.skip(spec_lit_base_len(s1));
            lemma_alnum_len_bound(s2);
            if spec_lit_sign_len(s) == 0 && spec_lit_base_len(s1) == 0 {
                assert(s1 =~= s);
                assert(s2 =~= s);
                assert(spec_is_alnum(s2[0]));
                lemma_alnum_len_bound(s2.skip(1));
                assert(spec_alnum_len(s2) >= 1);
            }
        } else if spec_is_ident_char(c) {
            lemma_ident_len_bound(s);
            lemma_ident_len_bound(s.skip(1));
            assert(spec_ident_len(s) >= 1);
        }
    }
}

/// An operand of one statement: a register, an immediate pattern, or a
/// label reference to be resolved in the second pass.
#[derive(Debug, PartialEq, Eq)]
pub enum Operand {
    Label(String),
    Imm(u16),
    Reg(u8),
}

/// Specification-level operand.
pub ghost enum OperandV {
    Label(Seq<char>),
    Imm(u16),
    Reg(u8),
}

impl View for Operand {
    type V = OperandV;

    open spec fn view(&self) -> OperandV {
        match self {
            Operand::Label(s) => OperandV::Label(s@),
            Operand::Imm(v) => OperandV::Imm(*v),
            Operand::Reg(r) => OperandV::Reg(*r),
        }
    }
}

/// One parsed instruction statement: the descriptor and its operands.
pub struct Statement {
    pub inst: info::Instruction,
    pub dst: u8,
    pub src1: u8,
    pub src2: Operand,
}

/// Specification-level statement.
pub ghost struct StatementV {
    pub op: Opcode,
    pub modbits: u8,
    pub dst: u8,
    pub src1: u8,
    pub src2: OperandV,
}

impl View for Statement {
    type V = StatementV;

    open spec fn view(&self) -> StatementV {
        StatementV {
            op: self.inst.opcode,
            modbits: self.inst.modbits,
            dst: self.dst,
            src1: self.src1,
            src2: self.src2@,
        }
    }
}

impl Token {
    /// This token as an immediate, or an immediate-expected error.
    pub fn try_imm(self) -> (r: Result<u16, ErrKind>)
        ensures
            (match self@ {
                TokenV::Imm(v) => r matches Ok(p) && p == v,
                _ => r matches Err(k) && k@ == ErrKindV::ImmExp,
            }),
    {
        if let Token::Imm(imm) = self {
            Ok(imm)
        } else {
            Err(ErrKind::ImmExp)
        }
    }

    /// This token as a register index, or a register-expected error.
    pub fn try_reg(self) -> (r: Result<u8, ErrKind>)
        ensures
            (match self@ {
                TokenV::Reg(v) => r matches Ok(p) && p == v,
                _ => r matches Err(k) && k@ == ErrKindV::RegExp,
            }),
    {
        if let Token::Reg(reg) = self {
            Ok(reg)
        } else {
            Err(ErrKind::RegExp)
        }
    }

    /// This token as an identifier, or a label-expected error.
    pub fn try_ident(self) -> (r: Result<String, ErrKind>)
        ensures
            (match self@ {
                TokenV::Ident(v) => r matches Ok(p) && p@ == v,
                _ => r matches Err(k) && k@ == ErrKindV::IdentExp,
            }),
    {
        if let Token::Ident(ident) = self {
            Ok(ident)
        } else {
            Err(ErrKind::IdentExp)
        }
    }

    /// This token if it is exactly the character `mc`, else an error
    /// naming `mc`.
    pub fn try_the_char(self, mc: char) -> (r: Result<char, ErrKind>)
        ensures
            (match self@ {
                TokenV::Char(c) => if c == mc {
                    r matches Ok(p) && p == mc
                } else {
                    r matches Err(k) && k@ == ErrKindV::CharExp(mc)
                },
                _ => r matches Err(k) && k@ == ErrKindV::CharExp(mc),
            }),
    {
        if let Token::Char(c) = self {
            if c == mc {
                return Ok(mc);
            }
        }
        Err(ErrKind::CharExp(mc))
    }
}

/// The label table that a list of (name, word index) pairs builds: a
/// later entry for the same name would win, but the parser never adds
/// a second entry for a name.
pub open spec fn spec_labels(v: Seq<(String, usize)>) -> Map<Seq<char>, int>
    decreases v.len(),
{
    if v.len() == 0 {
        Map::empty()
    } else {
        spec_labels(v.drop_last()).insert(v.last().0@, v.last().1 as int)
    }
}

/// No two entries share a name.
pub open spec fn labels_unique(v: Seq<(String, usize)>) -> bool {
    forall|i: int, j: int| 0 <= i < j < v.len() ==> (#[trigger] v[i]).0@ != (#[trigger] v[j]).0@
}

proof fn lemma_labels_dom(v: Seq<(String, usize)>, name: Seq<char>)
    ensures
        spec_labels(v).dom().contains(name) <==> (exists|j: int|
            0 <= j < v.len() && (#[trigger] v[j]).0@ == name),
    decreases v.len(),
{
    if v.len() > 0 {
        lemma_labels_dom(v.drop_last(), name);
        if spec_labels(v).dom().contains(name) {
            if v.last().0@ == name {
                assert(v[v.len() - 1].0@ == name);
            } else {
                let j = choose|j: int|
                    0 <= j < v.len() - 1 && (#[trigger] v.drop_last()[j]).0@ == name;
                assert(v[j].0@ == name);
            }
        }
        if exists|j: int| 0 <= j < v.len() && (#[trigger] v[j]).0@ == name {
            let j = choose|j: int| 0 <= j < v.len() && (#[trigger] v[j]).0@ == name;
            if j < v.len() - 1 {
                assert(v.drop_last()[j].0@ == name);
            }
        }
    }
}

proof fn lemma_labels_get(v: Seq<(String, usize)>, j: int)
    requires
        0 <= j < v.len(),
        forall|l: int| j < l < v.len() ==> (#[trigger] v[l]).0@ != v[j].0@,
    ensures
        spec_labels(v).dom().contains(v[j].0@),
        spec_labels(v)[v[j].0@] == v[j].1 as int,
    decreases v.len(),
{
    lemma_labels_dom(v, v[j].0@);
    if j < v.len() - 1 {
        assert(forall|l: int|
            j < l < v.len() - 1 ==> (#[trigger] v.drop_last()[l]).0@ != v[j].0@);
        assert(v.drop_last()[j] == v[j]);
        lemma_labels_get(v.drop_last(), j);
        assert(v.last().0@ != v[j].0@);
    }
}

/// The two-pass assembler over one piece of source text: the first pass
/// builds the statement list and the label table, the second encodes
/// each statement into one word.
pub struct Parser {
    scn: Scanner,
    labels: Vec<(String, usize)>,
    stmt_cnt: usize,
}

impl Parser {
    /// The text not yet consumed.
    pub closed spec fn rem(&self) -> Seq<char> {
        self.scn.remaining()
    }

    /// The label table built so far.
    pub closed spec fn labels_view(&self) -> Map<Seq<char>, int> {
        spec_labels(self.labels@)
    }

    /// How many statements the first pass has built so far.
    pub closed spec fn spec_stmt_cnt(&self) -> int {
        self.stmt_cnt as int
    }

    /// The current source line.
    pub closed spec fn spec_line(&self) -> int {
        self.scn.spec_line()
    }

    /// How many characters have been consumed.
    pub closed spec fn consumed_len(&self) -> int {
        self.scn.consumed().len() as int
    }

    /// The scanner is sound, label names are unique, and the statement
    /// count cannot outrun the characters consumed.
    pub closed spec fn wf(&self) -> bool {
        &&& self.scn.wf()
        &&& labels_unique(self.labels@)
        &&& self.stmt_cnt <= self.scn.consumed().len()
    }

    /// A parser at the start of `code`, with no labels or statements yet.
    pub fn new(code: &str) -> (r: Self)
        ensures
            r.wf(),
            r.rem() == code@,
            r.labels_view() == Map::<Seq<char>, int>::empty(),
            r.spec_stmt_cnt() == 0,
            r.spec_line() == 1,
    {
        Self { scn: Scanner::new(code), labels: Vec::new(), stmt_cnt: 0 }
    }

    /// The line number the scanner has reached.
    pub fn line_num(&self) -> (r: usize)
        ensures
            r as int == self.spec_line(),
    {
        self.scn.line_num()
    }

    /// Whether a label name is already defined.
    fn labels_contains(&self, name: &str) -> (r: bool)
        ensures
            r == self.labels_view().dom().contains(name@),
    {
        let mut j: usize = 0;
        let n = self.labels.len();
        while j < n
            invariant
                j <= n,
                n == self.labels@.len(),
                forall|l: int| 0 <= l < j ==> (#[trigger] self.labels@[l]).0@ != name@,
            decreases n - j,
        {
            if str_eq(self.labels[j].0.as_str(), name) {
                proof {
                    lemma_labels_dom(self.labels@, name@);
                }
                return true;
            }
            j = j + 1;
        }
        proof {
            lemma_labels_dom(self.labels@, name@);
        }
        false
    }

    /// The word index a defined label name maps to.
    fn labels_get(&self, name: &str) -> (r: Option<usize>)
        requires
            self.wf(),
        ensures
            (match r {
                Some(at) => self.labels_view().dom().contains(name@)
                    && self.labels_view()[name@] == at as int,
                None => !self.labels_view().dom().contains(name@),
            }),
    {
        let mut j: usize = 0;
        let n = self.labels.len();
        while j < n
            invariant
                j <= n,
                n == self.labels@.len(),
                self.wf(),
                forall|l: int| 0 <= l < j ==> (#[trigger] self.labels@[l]).0@ != name@,
            decreases n - j,
        {
            if str_eq(self.labels[j].0.as_str(), name) {
                proof {
                    lemma_labels_get(self.labels@, j as int);
                }
                return Some(self.labels[j].1);
            }
            j = j + 1;
        }
        proof {
            lemma_labels_dom(self.labels@, name@);
        }
        None
    }

    /// Read the next token, skipping whitespace and comments.
    fn next_tok(&mut self) -> (r: Result<Token, ErrKind>)
        requires
            old(self).wf(),
        ensures
            final(self).wf(),
            final(self).labels_view() == old(self).labels_view(),
            final(self).spec_stmt_cnt() == old(self).spec_stmt_cnt(),
            final(self).rem() == old(self).rem().skip(spec_next_tok(old(self).rem()).1),
            final(self).consumed_len() == old(self).consumed_len() + spec_next_tok(
                old(self).rem(),
            ).1,
            (match spec_next_tok(old(self).rem()).0 {
                Ok(tv) => r matches Ok(t) && t@ == tv && token_inst_wf(t),
                Err(e) => r matches Err(k) && k@ == e,
            }),
    {
        let ghost s0 = old(self).rem();
        let ghost mut d: int = 0;
        proof {
            assert(s0.skip(0) =~= s0);
        }
        loop
            invariant
                self.wf(),
                self.labels == old(self).labels,
                self.stmt_cnt == old(self).stmt_cnt,
                0 <= d <= s0.len(),
                s0 == old(self).rem(),
                self.rem() == s0.skip(d),
                self.consumed_len() == old(self).consumed_len() + d,
                spec_next_tok(s0).0 == spec_next_tok(s0.skip(d)).0,
                spec_next_tok(s0).1 == d + spec_next_tok(s0.skip(d)).1,
            decreases s0.len() - d,
        {
            let ghost cur = self.rem();
            let c = match self.scn.peek() {
                None => {
                    proof {
                        assert(cur.len() == 0);
                        assert(self.rem() =~= s0.skip(spec_next_tok(s0).1));
                    }
                    return Ok(Token::Eof);
                },
                Some(c) => c,
            };
            if c == '\t' || c == ' ' {
                let _ = self.scn.next();
                proof {
                    assert(cur.skip(1) =~= s0.skip(d + 1));
                    d = d + 1;
                }
                continue ;
            }
            if c == '@' || c == '/' {
                match eat_comment(&mut self.scn) {
                    Err(e) => {
                        proof {
                            assert(self.rem() =~= s0.skip(spec_next_tok(s0).1));
                        }
                        return Err(e);
                    },
                    Ok(_) => {
                        proof {
                            lemma_comment_used_bound(cur);
                            assert(cur.skip(spec_comment_used(cur)) =~= s0.skip(
                                d + spec_comment_used(cur),
                            ));
                            d = d + spec_comment_used(cur);
                        }
                        continue ;
                    },
                }
            }
            if c == '+' || c == '-' || is_digit_char(c) {
                let r = immediate(&mut self.scn);
                proof {
                    lemma_immediate_used_bound(cur);
                    assert(cur.skip(spec_immediate_used(cur)) =~= s0.skip(
                        d + spec_immediate_used(cur),
                    ));
                    assert(self.rem() =~= s0.skip(spec_next_tok(s0).1));
                }
                return r;
            }
            if is_ident_char(c) {
                let r = identifier(&mut self.scn);
                proof {
                    lemma_ident_len_bound(cur);
                    assert(cur.skip(spec_ident_len(cur)) =~= s0.skip(d + spec_ident_len(cur)));
                    assert(self.rem() =~= s0.skip(spec_next_tok(s0).1));
                }
                return r;
            }
            let _ = self.scn.next();
            proof {
                assert(cur.skip(1) =~= s0.skip(d + 1));
                assert(self.rem() =~= s0.skip(spec_next_tok(s0).1));
            }
            return Ok(Token::Char(c));
        }
    }
}

/// The outcome of demanding a register token.
pub open spec fn expect_reg(t: Result<TokenV, ErrKindV>) -> Result<u8, ErrKindV> {
    match t {
        Err(e) => Err(e),
        Ok(TokenV::Reg(r)) => Ok(r),
        Ok(_) => Err(ErrKindV::RegExp),
    }
}

/// The outcome of demanding an immediate token.
pub open spec fn expect_imm(t: Result<TokenV, ErrKindV>) -> Result<u16, ErrKindV> {
    match t {
        Err(e) => Err(e),
        Ok(TokenV::Imm(v)) => Ok(v),
        Ok(_) => Err(ErrKindV::ImmExp),
    }
}

/// The outcome of demanding an identifier token.
pub open spec fn expect_ident(t: Result<TokenV, ErrKindV>) -> Result<Seq<char>, ErrKindV> {
    match t {
        Err(e) => Err(e),
        Ok(TokenV::Ident(s)) => Ok(s),
        Ok(_) => Err(ErrKindV::IdentExp),
    }
}

/// The outcome of demanding one particular punctuation character.
pub open spec fn expect_the_char(t: Result<TokenV, ErrKindV>, mc: char) -> Result<(), ErrKindV> {
    match t {
        Err(e) => Err(e),
        Ok(TokenV::Char(c)) => if c == mc {
            Ok(())
        } else {
            Err(ErrKindV::CharExp(mc))
        },
        Ok(_) => Err(ErrKindV::CharExp(mc)),
    }
}

/// The outcome of demanding a register or immediate operand.
pub open spec fn expect_operand(t: Result<TokenV, ErrKindV>) -> Result<OperandV, ErrKindV> {
    match t {
        Err(e) => Err(e),
        Ok(TokenV::Reg(r)) => Ok(OperandV::Reg(r)),
        Ok(TokenV::Imm(v)) => Ok(OperandV::Imm(v)),
        Ok(_) => Err(ErrKindV::OperandExp),
    }
}

/// Read a register token from the start of `s`: the register and the rest
/// of the text.
pub open spec fn sp_reg(s: Seq<char>) -> Result<(u8, Seq<char>), ErrKindV> {
    match expect_reg(spec_next_tok(s).0) {
        Err(e) => Err(e),
        Ok(d) => Ok((d, s.skip(spec_next_tok(s).1))),
    }
}

/// Read an immediate token from the start of `s`.
pub open spec fn sp_imm(s: Seq<char>) -> Result<(u16, Seq<char>), ErrKindV> {
    match expect_imm(spec_next_tok(s).0) {
        Err(e) => Err(e),
        Ok(v) => Ok((v, s.skip(spec_next_tok(s).1))),
    }
}

/// Read an identifier token from the start of `s`.
pub open spec fn sp_ident(s: Seq<char>) -> Result<(Seq<char>, Seq<char>), ErrKindV> {
    match expect_ident(spec_next_tok(s).0) {
        Err(e) => Err(e),
        Ok(name) => Ok((name, s.skip(spec_next_tok(s).1))),
    }
}

/// Read one particular punctuation character from the start of `s`.
pub open spec fn sp_char(s: Seq<char>, mc: char) -> Result<Seq<char>, ErrKindV> {
    match expect_the_char(spec_next_tok(s).0, mc) {
        Err(e) => Err(e),
        Ok(_) => Ok(s.skip(spec_next_tok(s).1)),
    }
}

/// Read a register or immediate operand from the start of `s`.
pub open spec fn sp_operand(s: Seq<char>) -> Result<(OperandV, Seq<char>), ErrKindV> {
    match expect_operand(spec_next_tok(s).0) {
        Err(e) => Err(e),
        Ok(op2) => Ok((op2, s.skip(spec_next_tok(s).1))),
    }
}

/// The grammar of one statement whose mnemonic (with resolved modifier)
/// has already been read. The form is chosen by the opcode's operand
/// counts: loads and stores read `dst ',' imm '[' reg ']'`; the branch
/// family reads one label name; unary opcodes read a register or
/// immediate; binary opcodes read `reg ',' (reg|imm)`; a modifier suffix
/// is only legal when the variable operand came out an immediate; and
/// every statement ends at a newline. The result carries the statement
/// and the text that follows it.
pub open spec fn spec_statement(s: Seq<char>, op: Opcode, modbits: u8) -> Result<
    (StatementV, Seq<char>),
    ErrKindV,
> {
    let nd = info::spec_ndst(op);
    let ns = info::spec_nsrc(op);
    let is_ldst = op == Opcode::LD || op == Opcode::ST;
    let dst_r: Result<(u8, Seq<char>), ErrKindV> = if nd == 1 {
        match sp_reg(s) {
            Err(e) => Err(e),
            Ok((d, s1)) => if ns > 0 {
                match sp_char(s1, ',') {
                    Err(e) => Err(e),
                    Ok(s2) => Ok((d, s2)),
                }
            } else {
                Ok((d, s1))
            },
        }
    } else {
        Ok((0u8, s))
    };
    match dst_r {
        Err(e) => Err(e),
        Ok((dst, sa)) => {
            let ops_r: Result<(u8, OperandV, Seq<char>), ErrKindV> = if is_ldst {
                match sp_imm(sa) {
                    Err(e) => Err(e),
                    Ok((imm, sb)) => match sp_char(sb, '[') {
                        Err(e) => Err(e),
                        Ok(sc) => match sp_reg(sc) {
                            Err(e) => Err(e),
                            Ok((r1, sd)) => match sp_char(sd, ']') {
                                Err(e) => Err(e),
                                Ok(se) => Ok((r1, OperandV::Imm(imm), se)),
                            },
                        },
                    },
                }
            } else if nd == 0 && ns == 1 {
                match sp_ident(sa) {
                    Err(e) => Err(e),
                    Ok((name, sb)) => Ok((0u8, OperandV::Label(name), sb)),
                }
            } else if ns == 1 {
                match sp_operand(sa) {
                    Err(e) => Err(e),
                    Ok((op2, sb)) => Ok((0u8, op2, sb)),
                }
            } else if ns == 2 {
                match sp_reg(sa) {
                    Err(e) => Err(e),
                    Ok((r1, sb)) => match sp_char(sb, ',') {
                        Err(e) => Err(e),
                        Ok(sc) => match sp_operand(sc) {
                            Err(e) => Err(e),
                            Ok((op2, sd)) => Ok((r1, op2, sd)),
                        },
                    },
                }
            } else {
                Ok((0u8, OperandV::Reg(0u8), sa))
            };
            match ops_r {
                Err(e) => Err(e),
                Ok((src1, src2, sb)) => if !(src2 is Imm) && modbits != info::MOD_DEF {
                    Err(ErrKindV::IllegalModifier)
                } else {
                    match sp_char(sb, '\n') {
                        Err(e) => Err(e),
                        Ok(sc) => Ok(
                            (StatementV { op, modbits, dst, src1, src2 }, sc),
                        ),
                    }
                },
            }
        },
    }
}

impl Parser {
    /// Read a token and demand a register.
    fn tok_reg(&mut self) -> (r: Result<u8, ErrKind>)
        requires
            old(self).wf(),
        ensures
            final(self).wf(),
            final(self).labels_view() == old(self).labels_view(),
            final(self).spec_stmt_cnt() == old(self).spec_stmt_cnt(),
            (match sp_reg(old(self).rem()) {
                Ok((d, rest)) => r matches Ok(p) && p == d && final(self).rem() == rest
                    && final(self).consumed_len() == old(self).consumed_len()
                        + old(self).rem().len() - rest.len()
                    && rest.len() <= old(self).rem().len(),
                Err(e) => r matches Err(k) && k@ == e,
            }),
    {
        proof {
            lemma_next_tok_used(old(self).rem());
        }
        let t = match self.next_tok() {
            Ok(t) => t,
            Err(e) => {
                return Err(e);
            },
        };
        t.try_reg()
    }

    /// Read a token and demand an immediate.
    fn tok_imm(&mut self) -> (r: Result<u16, ErrKind>)
        requires
            old(self).wf(),
        ensures
            final(self).wf(),
            final(self).labels_view() == old(self).labels_view(),
            final(self).spec_stmt_cnt() == old(self).spec_stmt_cnt(),
            (match sp_imm(old(self).rem()) {
                Ok((v, rest)) => r matches Ok(p) && p == v && final(self).rem() == rest
                    && final(self).consumed_len() == old(self).consumed_len()
                        + old(self).rem().len() - rest.len()
                    && rest.len() <= old(self).rem().len(),
                Err(e) => r matches Err(k) && k@ == e,
            }),
    {
        proof {
            lemma_next_tok_used(old(self).rem());
        }
        let t = match self.next_tok() {
            Ok(t) => t,
            Err(e) => {
                return Err(e);
            },
        };
        t.try_imm()
    }

    /// Read a token and demand an identifier.
    fn tok_ident(&mut self) -> (r: Result<String, ErrKind>)
        requires
            old(self).wf(),
        ensures
            final(self).wf(),
            final(self).labels_view() == old(self).labels_view(),
            final(self).spec_stmt_cnt() == old(self).spec_stmt_cnt(),
            (match sp_ident(old(self).rem()) {
                Ok((name, rest)) => r matches Ok(p) && p@ == name && final(self).rem() == rest
                    && final(self).consumed_len() == old(self).consumed_len()
                        + old(self).rem().len() - rest.len()
                    && rest.len() <= old(self).rem().len(),
                Err(e) => r matches Err(k) && k@ == e,
            }),
    {
        proof {
            lemma_next_tok_used(old(self).rem());
        }
        let t = match self.next_tok() {
            Ok(t) => t,
            Err(e) => {
                return Err(e);
            },
        };
        t.try_ident()
    }

    /// Read a token and demand one particular character.
    fn tok_char(&mut self, mc: char) -> (r: Result<char, ErrKind>)
        requires
            old(self).wf(),
        ensures
            final(self).wf(),
            final(self).labels_view() == old(self).labels_view(),
            final(self).spec_stmt_cnt() == old(self).spec_stmt_cnt(),
            (match sp_char(old(self).rem(), mc) {
                Ok(rest) => r is Ok && final(self).rem() == rest && final(self).consumed_len()
                    == old(self).consumed_len() + old(self).rem().len() - rest.len() && rest.len()
                    < old(self).rem().len(),
                Err(e) => r matches Err(k) && k@ == e,
            }),
    {
        proof {
            lemma_next_tok_used(old(self).rem());
        }
        let t = match self.next_tok() {
            Ok(t) => t,
            Err(e) => {
                return Err(e);
            },
        };
        t.try_the_char(mc)
    }

    /// Read a token and demand a register or immediate operand.
    fn tok_operand(&mut self) -> (r: Result<Operand, ErrKind>)
        requires
            old(self).wf(),
        ensures
            final(self).wf(),
            final(self).labels_view() == old(self).labels_view(),
            final(self).spec_stmt_cnt() == old(self).spec_stmt_cnt(),
            (match sp_operand(old(self).rem()) {
                Ok((op2, rest)) => r matches Ok(p) && p@ == op2 && final(self).rem() == rest
                    && final(self).consumed_len() == old(self).consumed_len()
                        + old(self).rem().len() - rest.len()
                    && rest.len() <= old(self).rem().len(),
                Err(e) => r matches Err(k) && k@ == e,
            }),
    {
        proof {
            lemma_next_tok_used(old(self).rem());
        }
        let t = match self.next_tok() {
            Ok(t) => t,
            Err(e) => {
                return Err(e);
            },
        };
        match t {
            Token::Reg(reg) => Ok(Operand::Reg(reg)),
            Token::Imm(imm) => Ok(Operand::Imm(imm)),
            _ => Err(ErrKind::OperandExp),
        }
    }

    /// Parse the operands of one statement whose mnemonic token has just
    /// been read, and count the statement.
    fn make_statement(&mut self, inst: info::Instruction) -> (r: Result<Statement, ErrKind>)
        requires
            old(self).wf(),
            inst.wf(),
        ensures
            final(self).wf(),
            final(self).labels_view() == old(self).labels_view(),
            (match spec_statement(old(self).rem(), inst.opcode, inst.modbits) {
                Ok(pair) => r matches Ok(st) && st@ == pair.0 && st.inst.wf()
                    && stmt_shape_wf(st@) && final(self).rem() == pair.1 && pair.1.len() < old(
                    self,
                ).rem().len() && final(self).spec_stmt_cnt() == old(self).spec_stmt_cnt() + 1,
                Err(e) => r matches Err(k) && k@ == e
                    && final(self).spec_stmt_cnt() == old(self).spec_stmt_cnt(),
            }),
    {
        let mut dst: u8 = 0;
        let mut src1: u8 = 0;
        let mut src2: Operand = Operand::Reg(0);
        let is_ldst = inst.opcode == Opcode::LD || inst.opcode == Opcode::ST;
        // The branch family takes one label operand and no destination.
        let is_op2_label = inst.ndst == 0 && inst.nsrc == 1;

        // := reg
        //  | reg ',' (when at least one source operand follows)
        if inst.ndst == 1 {
            dst = match self.tok_reg() {
                Ok(d) => d,
                Err(e) => {
                    return Err(e);
                },
            };
            if inst.nsrc > 0 {
                match self.tok_char(',') {
                    Ok(_) => {},
                    Err(e) => {
                        return Err(e);
                    },
                };
            }
        }
        // := imm '[' reg ']'
        if is_ldst {
            let imm = match self.tok_imm() {
                Ok(v) => v,
                Err(e) => {
                    return Err(e);
                },
            };
            src2 = Operand::Imm(imm);
            match self.tok_char('[') {
                Ok(_) => {},
                Err(e) => {
                    return Err(e);
                },
            };
            src1 = match self.tok_reg() {
                Ok(d) => d,
                Err(e) => {
                    return Err(e);
                },
            };
            match self.tok_char(']') {
                Ok(_) => {},
                Err(e) => {
                    return Err(e);
                },
            };
        } else if is_op2_label {
            // := ident
            let name = match self.tok_ident() {
                Ok(n) => n,
                Err(e) => {
                    return Err(e);
                },
            };
            src2 = Operand::Label(name);
        } else if inst.nsrc == 1 {
            // := reg | imm
            src2 = match self.tok_operand() {
                Ok(o) => o,
                Err(e) => {
                    return Err(e);
                },
            };
        } else if inst.nsrc == 2 {
            // := reg ',' (reg | imm)
            src1 = match self.tok_reg() {
                Ok(d) => d,
                Err(e) => {
                    return Err(e);
                },
            };
            match self.tok_char(',') {
                Ok(_) => {},
                Err(e) => {
                    return Err(e);
                },
            };
            src2 = match self.tok_operand() {
                Ok(o) => o,
                Err(e) => {
                    return Err(e);
                },
            };
        }
        // A modifier suffix is legal only on an immediate operand.
        match &src2 {
            Operand::Imm(_) => {},
            _ => {
                if inst.modbits != info::MOD_DEF {
                    return Err(ErrKind::IllegalModifier);
                }
            },
        };
        // Each statement is terminated by a newline.
        match self.tok_char('\n') {
            Ok(_) => {},
            Err(e) => {
                return Err(e);
            },
        };
        self.stmt_cnt = self.stmt_cnt + 1;
        Ok(Statement { inst, dst, src1, src2 })
    }
}

/// The word for a register-or-immediate statement: opcode, then either
/// the three register fields with a clear immediate bit, or destination,
/// first source, modifier and 16-bit immediate with the bit set.
pub open spec fn spec_encode_rrx(opcode: u8, dst: u8, src1: u8, modbits: u8, src2: OperandV) -> u32
    recommends
        src2 is Reg || src2 is Imm,
{
    match src2 {
        OperandV::Reg(r2) => ((opcode as u32) << 27u32) | ((dst as u32) << 22u32) | ((
        src1 as u32) << 18u32) | ((r2 as u32) << 14u32),
        OperandV::Imm(imm) => ((opcode as u32) << 27u32) | (1u32 << 26u32) | ((dst as u32)
            << 22u32) | ((src1 as u32) << 18u32) | ((modbits as u32) << 16u32) | (imm as u32),
        OperandV::Label(_) => 0,
    }
}

/// The word for a single-offset statement: opcode, then the signed word
/// offset from the statement to its label in the low 27 bits.
pub open spec fn spec_encode_label(opcode: u8, label_at: int, cur_at: int) -> u32 {
    ((opcode as u32) << 27u32) | (((label_at - cur_at) as u32) & 0x07FF_FFFF)
}

/// The word for one statement at word index `at`, under a label table:
/// the label family looks its name up, failing if it was never defined;
/// the no-operand form is the bare opcode; everything else is the
/// register-or-immediate form.
pub open spec fn spec_encode_stmt(st: StatementV, labels: Map<Seq<char>, int>, at: int) -> Result<
    u32,
    ErrKindV,
> {
    let nd = info::spec_ndst(st.op);
    let ns = info::spec_nsrc(st.op);
    let ord = (info::opcode_ord(st.op)) as u8;
    if nd == 0 && ns == 1 {
        match st.src2 {
            OperandV::Label(name) => if labels.dom().contains(name) {
                Ok(spec_encode_label(ord, labels[name], at))
            } else {
                Err(ErrKindV::UndefinedLabel(name))
            },
            // The parser never builds another operand for this family.
            _ => Ok(0),
        }
    } else if nd == 0 && ns == 0 {
        Ok((ord as u32) << 27u32)
    } else {
        Ok(spec_encode_rrx(ord, st.dst, st.src1, st.modbits, st.src2))
    }
}

/// Encode the format `inst reg, reg, reg|imm`.
pub fn encode_rrx(opcode: u8, dst: u8, src1: u8, modbits: u8, src2: &Operand) -> (r: u32)
    requires
        !(src2@ is Label),
    ensures
        r == spec_encode_rrx(opcode, dst, src1, modbits, src2@),
{
    match src2 {
        Operand::Reg(regs2) => ((opcode as u32) << 27) | ((dst as u32) << 22) | ((src1 as u32)
            << 18) | ((*regs2 as u32) << 14),
        Operand::Imm(imm) => ((opcode as u32) << 27) | (1u32 << 26) | ((dst as u32) << 22) | ((
        src1 as u32) << 18) | ((modbits as u32) << 16) | (*imm as u32),
        Operand::Label(_) => {
            proof {
                assert(false);
            }
            0
        },
    }
}

/// Encode the format `inst label`: the offset is the label's word index
/// minus this statement's, in two's complement.
pub fn encode_label(opcode: u8, label_at: usize, cur_at: usize) -> (r: u32)
    ensures
        r == spec_encode_label(opcode, label_at as int, cur_at as int),
{
    let diff = (label_at as u64).wrapping_sub(cur_at as u64);
    let offset = #[verifier::truncate] (diff as u32);
    proof {
        let a = label_at as u64;
        let b = cur_at as u64;
        assert((if a - b < 0 {
            (a - b + 0x1_0000_0000_0000_0000) as u64
        } else {
            (a - b) as u64
        }) as u32 == (a - b) as u32) by (bit_vector);
    }
    ((opcode as u32) << 27) | (offset & 0x07FF_FFFF)
}

/// The operand shape the grammar guarantees: exactly the label family
/// carries a label operand.
pub open spec fn stmt_shape_wf(st: StatementV) -> bool {
    if info::spec_ndst(st.op) == 0 && info::spec_nsrc(st.op) == 1 {
        st.src2 is Label
    } else {
        !(st.src2 is Label)
    }
}

/// The views of a list of statements.
pub open spec fn views_of(v: Seq<Statement>) -> Seq<StatementV> {
    Seq::new(v.len(), |i: int| v[i]@)
}

impl Parser {
    /// The word index a label operand refers to, or an undefined-label
    /// error naming it.
    fn get_label_index(&self, label_op: &Operand) -> (r: Result<usize, ErrKind>)
        requires
            self.wf(),
            label_op@ is Label,
        ensures
            (match label_op@ {
                OperandV::Label(name) => if self.labels_view().dom().contains(name) {
                    r matches Ok(at) && at as int == self.labels_view()[name]
                } else {
                    r matches Err(k) && k@ == ErrKindV::UndefinedLabel(name)
                },
                _ => false,
            }),
    {
        match label_op {
            Operand::Label(ident) => match self.labels_get(ident.as_str()) {
                Some(at) => Ok(at),
                None => Err(ErrKind::UndefinedLabel(ident.clone())),
            },
            _ => {
                proof {
                    assert(false);
                }
                Err(ErrKind::IdentExp)
            },
        }
    }

    /// The second pass: encode each statement into one 32-bit word, in
    /// order; the first statement whose label was never defined aborts
    /// the pass with its error.
    fn assemble(&self, stmts: &Vec<Statement>) -> (r: Result<Vec<u32>, ErrKind>)
        requires
            self.wf(),
            forall|j: int|
                0 <= j < stmts@.len() ==> (#[trigger] stmts@[j]).inst.wf() && stmt_shape_wf(
                    stmts@[j]@,
                ),
        ensures
            (match r {
                Ok(words) => words@.len() == stmts@.len() && forall|j: int|
                    0 <= j < stmts@.len() ==> #[trigger] spec_encode_stmt(
                        views_of(stmts@)[j],
                        self.labels_view(),
                        j,
                    ) == Ok::<u32, ErrKindV>(words@[j]),
                Err(k) => exists|j: int|
                    0 <= j < stmts@.len() && #[trigger] spec_encode_stmt(
                        views_of(stmts@)[j],
                        self.labels_view(),
                        j,
                    ) == Err::<u32, ErrKindV>(k@) && (forall|l: int|
                        0 <= l < j ==> #[trigger] spec_encode_stmt(
                            views_of(stmts@)[l],
                            self.labels_view(),
                            l,
                        ) is Ok),
            }),
    {
        let mut ret: Vec<u32> = Vec::new();
        let n = stmts.len();
        let mut i: usize = 0;
        while i < n
            invariant
                i <= n,
                n == stmts@.len(),
                self.wf(),
                forall|j: int|
                    0 <= j < stmts@.len() ==> (#[trigger] stmts@[j]).inst.wf() && stmt_shape_wf(
                        stmts@[j]@,
                    ),
                ret@.len() == i,
                forall|j: int|
                    0 <= j < i ==> #[trigger] spec_encode_stmt(
                        views_of(stmts@)[j],
                        self.labels_view(),
                        j,
                    ) == Ok::<u32, ErrKindV>(ret@[j]),
            decreases n - i,
        {
            let st = &stmts[i];
            let ord = info::opcode_num(st.inst.opcode);
            let tmp: u32 = match (st.inst.ndst, st.inst.nsrc) {
                (0, 1) => {
                    proof {
                        assert(stmt_shape_wf(stmts@[i as int]@));
                    }
                    let label_at = match self.get_label_index(&st.src2) {
                        Ok(at) => at,
                        Err(e) => {
                            proof {
                                assert(spec_encode_stmt(
                                    views_of(stmts@)[i as int],
                                    self.labels_view(),
                                    i as int,
                                ) == Err::<u32, ErrKindV>(e@));
                            }
                            return Err(e);
                        },
                    };
                    encode_label(ord, label_at, ret.len())
                },
                (0, 0) => (ord as u32) << 27,
                _ => encode_rrx(ord, st.dst, st.src1, st.inst.modbits, &st.src2),
            };
            ret.push(tmp);
            i = i + 1;
        }
        Ok(ret)
    }
}

/// The text after a successfully parsed statement is strictly shorter:
/// at the least, the closing newline was consumed.
proof fn lemma_statement_rest(s: Seq<char>, op: Opcode, modbits: u8)
    ensures
        spec_statement(s, op, modbits) matches Ok(pair) ==> pair.1.len() < s.len(),
{
    if spec_statement(s, op, modbits) is Ok {
        let nd = info::spec_ndst(op);
        let ns = info::spec_nsrc(op);
        let is_ldst = op == Opcode::LD || op == Opcode::ST;
        lemma_next_tok_used(s);
        let sa = if nd == 1 {
            let s1 = s.skip(spec_next_tok(s).1);
            lemma_next_tok_used(s1);
            if ns > 0 {
                s1.skip(spec_next_tok(s1).1)
            } else {
                s1
            }
        } else {
            s
        };
        assert(sa.len() <= s.len());
        lemma_next_tok_used(sa);
        let sb = if is_ldst {
            let t1 = sa.skip(spec_next_tok(sa).1);
            lemma_next_tok_used(t1);
            let t2 = t1.skip(spec_next_tok(t1).1);
            lemma_next_tok_used(t2);
            let t3 = t2.skip(spec_next_tok(t2).1);
            lemma_next_tok_used(t3);
            t3.skip(spec_next_tok(t3).1)
        } else if nd == 0 && ns == 1 {
            sa.skip(spec_next_tok(sa).1)
        } else if ns == 1 {
            sa.skip(spec_next_tok(sa).1)
        } else if ns == 2 {
            let t1 = sa.skip(spec_next_tok(sa).1);
            lemma_next_tok_used(t1);
            let t2 = t1.skip(spec_next_tok(t1).1);
            lemma_next_tok_used(t2);
            t2.skip(spec_next_tok(t2).1)
        } else {
            sa
        };
        assert(sb.len() <= sa.len());
        lemma_next_tok_used(sb);
        assert(spec_next_tok(sb).0 == Ok::<TokenV, ErrKindV>(TokenV::Char('\n')));
        assert(spec_next_tok(sb).1 >= 1);
    }
}

/// The first pass over the text, from a given statement count, label
/// table and statement list: a name followed by `:` defines a label at
/// the index of the next statement, a name already defined being a hard
/// error; a mnemonic opens a statement; blank lines are skipped; the
/// pass ends at the end of the input; anything else is an unexpected
/// token.
pub open spec fn spec_pass1(
    s: Seq<char>,
    cnt: int,
    labels: Map<Seq<char>, int>,
    stmts: Seq<StatementV>,
) -> Result<(Seq<StatementV>, Map<Seq<char>, int>), ErrKindV>
    decreases s.len(),
    via spec_pass1_decreases
{
    let t = spec_next_tok(s);
    match t.0 {
        Err(e) => Err(e),
        Ok(TokenV::Eof) => Ok((stmts, labels)),
        Ok(TokenV::Ident(name)) => {
            let s1 = s.skip(t.1);
            let t2 = spec_next_tok(s1);
            match expect_the_char(t2.0, ':') {
                Err(e) => Err(e),
                Ok(_) => if labels.dom().contains(name) {
                    Err(ErrKindV::DuplicateLabel(name))
                } else {
                    spec_pass1(s1.skip(t2.1), cnt, labels.insert(name, cnt), stmts)
                },
            }
        },
        Ok(TokenV::Inst(op, modbits)) => match spec_statement(s.skip(t.1), op, modbits) {
            Err(e) => Err(e),
            Ok(pair) => spec_pass1(pair.1, cnt + 1, labels, stmts.push(pair.0)),
        },
        Ok(TokenV::Char(c)) => if c == '\n' {
            spec_pass1(s.skip(t.1), cnt, labels, stmts)
        } else {
            Err(ErrKindV::IllegalToken)
        },
        Ok(_) => Err(ErrKindV::IllegalToken),
    }
}

#[via_fn]
proof fn spec_pass1_decreases(
    s: Seq<char>,
    cnt: int,
    labels: Map<Seq<char>, int>,
    stmts: Seq<StatementV>,
) {
    lemma_next_tok_used(s);
    let t = spec_next_tok(s);
    match t.0 {
        Ok(TokenV::Ident(_)) => {
            let s1 = s.skip(t.1);
            lemma_next_tok_used(s1);
        },
        Ok(TokenV::Inst(op, modbits)) => {
            let s1 = s.skip(t.1);
            lemma_statement_rest(s1, op, modbits);
        },
        _ => {},
    }
}

impl Parser {
    /// Both passes: read statements and labels to the end of the input,
    /// then encode every statement. The words returned are exactly the
    /// encodings of the statements the text describes, one per
    /// statement; the first lexical, grammatical or label error aborts
    /// the assembly.
    #[verifier::rlimit(100)]
    pub fn parse(&mut self) -> (r: Result<Vec<u32>, ErrKind>)
        requires
            old(self).wf(),
        ensures
            final(self).wf(),
            (match spec_pass1(
                old(self).rem(),
                old(self).spec_stmt_cnt(),
                old(self).labels_view(),
                Seq::empty(),
            ) {
                Err(e) => r matches Err(k) && k@ == e,
                Ok(pair) => (match r {
                    Ok(words) => words@.len() == pair.0.len() && (forall|j: int|
                        0 <= j < pair.0.len() ==> #[trigger] spec_encode_stmt(pair.0[j], pair.1, j)
                            == Ok::<u32, ErrKindV>(words@[j])),
                    Err(k) => exists|j: int|
                        0 <= j < pair.0.len() && #[trigger] spec_encode_stmt(pair.0[j], pair.1, j)
                            == Err::<u32, ErrKindV>(k@) && (forall|l: int|
                            0 <= l < j ==> #[trigger] spec_encode_stmt(pair.0[l], pair.1, l)
                                is Ok),
                }),
            }),
    {
        let ghost s0 = old(self).rem();
        let ghost cnt0 = old(self).spec_stmt_cnt();
        let ghost labels0 = old(self).labels_view();
        let mut stmts: Vec<Statement> = Vec::new();
        proof {
            assert(views_of(stmts@) =~= Seq::<StatementV>::empty());
        }
        loop
            invariant_except_break
                spec_pass1(s0, cnt0, labels0, Seq::empty()) == spec_pass1(
                    self.rem(),
                    self.spec_stmt_cnt(),
                    self.labels_view(),
                    views_of(stmts@),
                ),
            invariant
                self.wf(),
                s0 == old(self).rem(),
                cnt0 == old(self).spec_stmt_cnt(),
                labels0 == old(self).labels_view(),
                forall|j: int|
                    0 <= j < stmts@.len() ==> (#[trigger] stmts@[j]).inst.wf() && stmt_shape_wf(
                        stmts@[j]@,
                    ),
            ensures
                self.wf(),
                forall|j: int|
                    0 <= j < stmts@.len() ==> (#[trigger] stmts@[j]).inst.wf() && stmt_shape_wf(
                        stmts@[j]@,
                    ),
                spec_pass1(s0, cnt0, labels0, Seq::empty()) == Ok::<
                    (Seq<StatementV>, Map<Seq<char>, int>),
                    ErrKindV,
                >((views_of(stmts@), self.labels_view())),
            decreases self.rem().len(),
        {
            let ghost cur = self.rem();
            let ghost cur_cnt = self.spec_stmt_cnt();
            let ghost cur_labels = self.labels_view();
            proof {
                lemma_next_tok_used(cur);
            }
            let t = match self.next_tok() {
                Ok(t) => t,
                Err(e) => {
                    return Err(e);
                },
            };
            match t {
                Token::Ident(ident) => {
                    let ghost s1 = self.rem();
                    proof {
                        lemma_next_tok_used(s1);
                    }
                    match self.tok_char(':') {
                        Ok(_) => {},
                        Err(e) => {
                            return Err(e);
                        },
                    };
                    if self.labels_contains(ident.as_str()) {
                        return Err(ErrKind::DuplicateLabel(ident));
                    }
                    proof {
                        lemma_labels_dom(self.labels@, ident@);
                    }
                    let ghost pre_labels = self.labels@;
                    let at = self.stmt_cnt;
                    self.labels.push((ident, at));
                    proof {
                        assert(self.labels@.drop_last() =~= pre_labels);
                        assert(forall|l: int|
                            0 <= l < pre_labels.len() ==> (#[trigger] pre_labels[l]).0@
                                != self.labels@.last().0@);
                        assert(labels_unique(self.labels@));
                    }
                },
                Token::Inst(inst) => {
                    let ghost sm = self.rem();
                    let st = match self.make_statement(inst) {
                        Ok(st) => st,
                        Err(e) => {
                            return Err(e);
                        },
                    };
                    let ghost pre = stmts@;
                    stmts.push(st);
                    proof {
                        assert(views_of(stmts@) =~= views_of(pre).push(st@));
                    }
                },
                Token::Char(c) => {
                    if c != '\n' {
                        return Err(ErrKind::IllegalToken);
                    }
                    // Blank lines between statements are skipped.
                },
                Token::Eof => {
                    break ;
                },
                _ => {
                    return Err(ErrKind::IllegalToken);
                },
            };
        }
        self.assemble(&stmts)
    }
}

/// Assemble a whole source text: the words returned are exactly the
/// encodings of the statements the text describes; any error carries
/// the line the scanner had reached.
pub fn parse_code(input: &str) -> (r: Result<Vec<u32>, ParseErr>)
    ensures
        (match spec_pass1(input@, 0, Map::empty(), Seq::empty()) {
            Err(e) => r matches Err(pe) && pe.kind@ == e,
            Ok(pair) => (match r {
                Ok(words) => words@.len() == pair.0.len() && (forall|j: int|
                    0 <= j < pair.0.len() ==> #[trigger] spec_encode_stmt(pair.0[j], pair.1, j)
                        == Ok::<u32, ErrKindV>(words@[j])),
                Err(pe) => exists|j: int|
                    0 <= j < pair.0.len() && #[trigger] spec_encode_stmt(pair.0[j], pair.1, j)
                        == Err::<u32, ErrKindV>(pe.kind@) && (forall|l: int|
                        0 <= l < j ==> #[trigger] spec_encode_stmt(pair.0[l], pair.1, l) is Ok),
            }),
        }),
{
    let mut prs = Parser::new(input);
    match prs.parse() {
        Ok(ret) => Ok(ret),
        Err(kind) => Err(ParseErr { line: prs.line_num(), kind }),
    }
}

/// Every label reference resolves to the exact signed word offset from
/// the referring statement to its label. For programs of fewer than
/// `2^26` statements both word indexes fit the 27-bit offset field, and
/// decoding the field of the encoded word by sign extension yields
/// exactly `label_at - cur_at` again.
pub proof fn lemma_label_offset_round_trip(opcode: u8, label_at: u32, cur_at: u32)
    by (bit_vector)
    requires
        opcode < 32,
        label_at < 0x0400_0000,
        cur_at < 0x0400_0000,
    ensures
        -0x0400_0000 < label_at - cur_at < 0x0400_0000,
        crate::emulator::spec_get_bits(
            spec_encode_label(opcode, label_at as int, cur_at as int),
            5,
            27,
        ) == opcode,
        crate::emulator::spec_sign_extend(
            crate::emulator::spec_get_bits(
                spec_encode_label(opcode, label_at as int, cur_at as int),
                27,
                0,
            ),
            27,
        ) as int == label_at - cur_at,
{
}

/// Tokenizing a syntactically valid immediate literal and re-deriving
/// its value is a bit-exact round trip: a non-negative literal's 16-bit
/// pattern is its magnitude, and a negative literal's pattern
/// sign-extends — as the default immediate modifier does at decode
/// time — back to minus its magnitude.
pub proof fn lemma_literal_round_trip(s: Seq<char>)
    requires
        spec_immediate_result(s) is Ok,
    ensures
        ({
            let p = spec_immediate_result(s)->Ok_0;
            let s1 = s.skip(spec_lit_sign_len(s));
            let base = spec_lit_base(s1);
            let s2 = s1.skip(spec_lit_base_len(s1));
            let digits = s2.take(spec_alnum_len(s2));
            let v = spec_digits_val(digits, base, 0)->Ok_0;
            &&& 0 <= v <= 0xFFFF
            &&& (!spec_lit_neg(s) ==> p == v)
            &&& (spec_lit_neg(s) ==> v <= 32768 && crate::emulator::spec_sign_extend(
                p as u32,
                16,
            ) as int == -v)
        }),
{
    let p = spec_immediate_result(s)->Ok_0;
    let s1 = s.skip(spec_lit_sign_len(s));
    let base = spec_lit_base(s1);
    let s2 = s1.skip(spec_lit_base_len(s1));
    let digits = s2.take(spec_alnum_len(s2));
    lemma_digits_val_bound(digits, base, 0);
    let v = spec_digits_val(digits, base, 0)->Ok_0;
    if spec_lit_neg(s) {
        if v == 0 {
            assert(p == 0);
            assert(crate::emulator::spec_sign_extend(0u32, 16) as int == 0) by (bit_vector);
        } else {
            assert((0x10000 - v) % 0x10000 == 0x10000 - v) by (nonlinear_arith)
                requires
                    0 < v <= 0x10000,
            ;
            assert(p == 0x10000 - v);
            let pp = p;
            assert(crate::emulator::spec_sign_extend(pp as u32, 16) as int == pp - 0x10000)
                by (bit_vector)
                requires
                    0x8000 <= pp <= 0xFFFF,
            ;
        }
    }
}

/// The assembler and the emulator share one bit-exact contract: decoding
/// the fields of an encoded register-or-immediate word recovers exactly
/// the opcode, immediate bit, registers, modifier and immediate that
/// were encoded.
pub proof fn lemma_rrx_round_trip(opcode: u8, dst: u8, src1: u8, modbits: u8, src2: OperandV)
    requires
        opcode < 32,
        dst < 16,
        src1 < 16,
        modbits < 4,
        src2 matches OperandV::Reg(r2) ==> r2 < 16,
        src2 is Reg || src2 is Imm,
    ensures
        ({
            let w = spec_encode_rrx(opcode, dst, src1, modbits, src2);
            &&& crate::emulator::spec_get_bits(w, 5, 27) == opcode
            &&& crate::emulator::spec_get_bits(w, 1, 26) == (if src2 is Imm {
                1u32
            } else {
                0u32
            })
            &&& crate::emulator::spec_get_bits(w, 4, 22) == dst
            &&& crate::emulator::spec_get_bits(w, 4, 18) == src1
            &&& (src2 matches OperandV::Reg(r2) ==> crate::emulator::spec_get_bits(w, 4, 14) == r2)
            &&& (src2 matches OperandV::Imm(v) ==> crate::emulator::spec_get_bits(w, 2, 16)
                == modbits && crate::emulator::spec_get_bits(w, 16, 0) == v)
        }),
{
    match src2 {
        OperandV::Reg(r2) => {
            let w = spec_encode_rrx(opcode, dst, src1, modbits, src2);
            assert(w == ((opcode as u32) << 27u32) | ((dst as u32) << 22u32) | ((src1 as u32)
                << 18u32) | ((r2 as u32) << 14u32));
            assert({
                let v = ((opcode as u32) << 27u32) | ((dst as u32) << 22u32) | ((src1 as u32)
                    << 18u32) | ((r2 as u32) << 14u32);
                &&& crate::emulator::spec_get_bits(v, 5, 27) == opcode
                &&& crate::emulator::spec_get_bits(v, 1, 26) == 0u32
                &&& crate::emulator::spec_get_bits(v, 4, 22) == dst
                &&& crate::emulator::spec_get_bits(v, 4, 18) == src1
                &&& crate::emulator::spec_get_bits(v, 4, 14) == r2
            }) by (bit_vector)
                requires
                    opcode < 32,
                    dst < 16,
                    src1 < 16,
                    r2 < 16,
            ;
        },
        OperandV::Imm(v) => {
            let w = spec_encode_rrx(opcode, dst, src1, modbits, src2);
            assert(w == ((opcode as u32) << 27u32) | (1u32 << 26u32) | ((dst as u32) << 22u32) | ((
            src1 as u32) << 18u32) | ((modbits as u32) << 16u32) | (v as u32));
            assert({
                let u = ((opcode as u32) << 27u32) | (1u32 << 26u32) | ((dst as u32) << 22u32) | ((
                src1 as u32) << 18u32) | ((modbits as u32) << 16u32) | (v as u32);
                &&& crate::emulator::spec_get_bits(u, 5, 27) == opcode
                &&& crate::emulator::spec_get_bits(u, 1, 26) == 1u32
                &&& crate::emulator::spec_get_bits(u, 4, 22) == dst
                &&& crate::emulator::spec_get_bits(u, 4, 18) == src1
                &&& crate::emulator::spec_get_bits(u, 2, 16) == modbits
                &&& crate::emulator::spec_get_bits(u, 16, 0) == v
            }) by (bit_vector)
                requires
                    opcode < 32,
                    dst < 16,
                    src1 < 16,
                    modbits < 4,
            ;
        },
        OperandV::Label(_) => {},
    }
}

} // verus!
