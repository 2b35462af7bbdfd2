//! The line grammar of the assembly language and its classifier/encoder,
//! together with the preprocessed-text holder (`Parser`) and the lazy,
//! position-tracked instruction stream (`AsmLines`).

use vstd::prelude::*;
use vstd::slice::{slice_subrange, slice_to_vec};
use vstd::string::StringSliceAdditionalSpecFns;
use crate::error::{AsmError, ErrView};

verus! {

// ---------------------------------------------------------------------------
// Byte classes of the grammar
// ---------------------------------------------------------------------------

pub open spec fn is_digit(b: u8) -> bool {
    '0' as u8 <= b <= '9' as u8
}

pub open spec fn is_letter(b: u8) -> bool {
    ('a' as u8 <= b <= 'z' as u8) || ('A' as u8 <= b <= 'Z' as u8)
}

/// A byte that may open an identifier: a letter or one of `_ . $ :`.
pub open spec fn is_symbol_start(b: u8) -> bool {
    is_letter(b) || b == '_' as u8 || b == '.' as u8 || b == '$' as u8 || b == ':' as u8
}

/// A byte that may continue an identifier.
pub open spec fn is_symbol_byte(b: u8) -> bool {
    is_symbol_start(b) || is_digit(b)
}

/// A non-empty run of decimal digits.
pub open spec fn is_number(s: Seq<u8>) -> bool {
    s.len() > 0 && forall|i: int| 0 <= i < s.len() ==> is_digit(#[trigger] s[i])
}

/// A well-formed identifier: non-empty, not starting with a digit.
pub open spec fn is_symbol(s: Seq<u8>) -> bool {
    &&& s.len() > 0
    &&& is_symbol_start(s[0])
    &&& forall|i: int| 1 <= i < s.len() ==> is_symbol_byte(#[trigger] s[i])
}

/// The value of a run of decimal digits, most significant first.
pub open spec fn numeric_value(s: Seq<u8>) -> nat
    decreases s.len(),
{
    if s.len() == 0 {
        0
    } else {
        numeric_value(s.drop_last()) * 10 + (s.last() - '0' as u8) as nat
    }
}

fn is_digit_b(b: u8) -> (r: bool)
    ensures
        r == is_digit(b),
{
    '0' as u8 <= b && b <= '9' as u8
}

fn is_symbol_start_b(b: u8) -> (r: bool)
    ensures
        r == is_symbol_start(b),
{
    ('a' as u8 <= b && b <= 'z' as u8) || ('A' as u8 <= b && b <= 'Z' as u8) || b == '_' as u8
        || b == '.' as u8 || b == '$' as u8 || b == ':' as u8
}

fn is_symbol_byte_b(b: u8) -> (r: bool)
    ensures
        r == is_symbol_byte(b),
{
    is_symbol_start_b(b) || is_digit_b(b)
}

// ---------------------------------------------------------------------------
// Scanning for a byte
// ---------------------------------------------------------------------------

/// The index of the first occurrence of `b` in `s`, or `s.len()` if absent.
pub open spec fn spec_find_byte(s: Seq<u8>, b: u8) -> nat
    decreases s.len(),
{
    if s.len() == 0 {
        0
    } else if s[0] == b {
        0
    } else {
        1 + spec_find_byte(s.skip(1), b)
    }
}

pub proof fn lemma_find_byte(s: Seq<u8>, b: u8)
    ensures
        spec_find_byte(s, b) <= s.len(),
        spec_find_byte(s, b) < s.len() ==> s[spec_find_byte(s, b) as int] == b,
        forall|j: int| 0 <= j < spec_find_byte(s, b) ==> s[j] != b,
    decreases s.len(),
{
    if s.len() == 0 {
    } else if s[0] == b {
    } else {
        lemma_find_byte(s.skip(1), b);
        assert forall|j: int| 0 <= j < spec_find_byte(s, b) implies s[j] != b by {
            if j > 0 {
                assert(s.skip(1)[j - 1] == s[j]);
            }
        }
    }
}

fn find_byte(s: &[u8], b: u8) -> (r: usize)
    ensures
        r as nat == spec_find_byte(s@, b),
{
    let n = s.len();
    let mut i: usize = 0;
    while i < n
        invariant
            i <= n,
            n == s@.len(),
            forall|j: int| 0 <= j < i ==> s@[j] != b,
        decreases n - i,
    {
        if s[i] == b {
            proof {
                lemma_find_byte(s@, b);
            }
            return i;
        }
        i += 1;
    }
    proof {
        lemma_find_byte(s@, b);
    }
    n
}

// ---------------------------------------------------------------------------
// Token equality against the fixed mnemonic tables
// ---------------------------------------------------------------------------

fn tok_eq1(t: &[u8], a: u8) -> (r: bool)
    ensures
        r == (t@ == seq![a]),
{
    let r = t.len() == 1 && t[0] == a;
    proof {
        if r {
            assert(t@ =~= seq![a]);
        }
    }
    r
}

fn tok_eq2(t: &[u8], a: u8, b: u8) -> (r: bool)
    ensures
        r == (t@ == seq![a, b]),
{
    let r = t.len() == 2 && t[0] == a && t[1] == b;
    proof {
        if r {
            assert(t@ =~= seq![a, b]);
        }
    }
    r
}

fn tok_eq3(t: &[u8], a: u8, b: u8, c: u8) -> (r: bool)
    ensures
        r == (t@ == seq![a, b, c]),
{
    let r = t.len() == 3 && t[0] == a && t[1] == b && t[2] == c;
    proof {
        if r {
            assert(t@ =~= seq![a, b, c]);
        }
    }
    r
}

/// The jump field: an exact-match table of 7 mnemonics to the values 1-7.
pub open spec fn spec_jump_code(t: Seq<u8>) -> Option<u16> {
    if t == seq!['J' as u8, 'G' as u8, 'T' as u8] {
        Some(1u16)
    } else if t == seq!['J' as u8, 'E' as u8, 'Q' as u8] {
        Some(2u16)
    } else if t == seq!['J' as u8, 'G' as u8, 'E' as u8] {
        Some(3u16)
    } else if t == seq!['J' as u8, 'L' as u8, 'T' as u8] {
        Some(4u16)
    } else if t == seq!['J' as u8, 'N' as u8, 'E' as u8] {
        Some(5u16)
    } else if t == seq!['J' as u8, 'L' as u8, 'E' as u8] {
        Some(6u16)
    } else if t == seq!['J' as u8, 'M' as u8, 'P' as u8] {
        Some(7u16)
    } else {
        None
    }
}

fn jump_lookup(t: &[u8]) -> (r: Option<u16>)
    ensures
        r == spec_jump_code(t@),
{
    if tok_eq3(t, 'J' as u8, 'G' as u8, 'T' as u8) {
        Some(1)
    } else if tok_eq3(t, 'J' as u8, 'E' as u8, 'Q' as u8) {
        Some(2)
    } else if tok_eq3(t, 'J' as u8, 'G' as u8, 'E' as u8) {
        Some(3)
    } else if tok_eq3(t, 'J' as u8, 'L' as u8, 'T' as u8) {
        Some(4)
    } else if tok_eq3(t, 'J' as u8, 'N' as u8, 'E' as u8) {
        Some(5)
    } else if tok_eq3(t, 'J' as u8, 'L' as u8, 'E' as u8) {
        Some(6)
    } else if tok_eq3(t, 'J' as u8, 'M' as u8, 'P' as u8) {
        Some(7)
    } else {
        None
    }
}

/// The destination field: an exact-match table of 7 mnemonics to 1-7.
pub open spec fn spec_dest_code(t: Seq<u8>) -> Option<u16> {
    if t == seq!['M' as u8] {
        Some(1u16)
    } else if t == seq!['D' as u8] {
        Some(2u16)
    } else if t == seq!['M' as u8, 'D' as u8] {
        Some(3u16)
    } else if t == seq!['A' as u8] {
        Some(4u16)
    } else if t == seq!['A' as u8, 'M' as u8] {
        Some(5u16)
    } else if t == seq!['A' as u8, 'D' as u8] {
        Some(6u16)
    } else if t == seq!['A' as u8, 'M' as u8, 'D' as u8] {
        Some(7u16)
    } else {
        None
    }
}

fn dest_lookup(t: &[u8]) -> (r: Option<u16>)
    ensures
        r == spec_dest_code(t@),
{
    if tok_eq1(t, 'M' as u8) {
        Some(1)
    } else if tok_eq1(t, 'D' as u8) {
        Some(2)
    } else if tok_eq2(t, 'M' as u8, 'D' as u8) {
        Some(3)
    } else if tok_eq1(t, 'A' as u8) {
        Some(4)
    } else if tok_eq2(t, 'A' as u8, 'M' as u8) {
        Some(5)
    } else if tok_eq2(t, 'A' as u8, 'D' as u8) {
        Some(6)
    } else if tok_eq3(t, 'A' as u8, 'M' as u8, 'D' as u8) {
        Some(7)
    } else {
        None
    }
}

/// The operation field: the fixed table of 28 mnemonics to 7-bit codes.
pub open spec fn spec_op_code(t: Seq<u8>) -> Option<u16> {
    if t == seq!['0' as u8] {
        Some(0b0101010u16)
    } else if t == seq!['1' as u8] {
        Some(0b0111111u16)
    } else if t == seq!['-' as u8, '1' as u8] {
        Some(0b0111010u16)
    } else if t == seq!['D' as u8] {
        Some(0b0001100u16)
    } else if t == seq!['A' as u8] {
        Some(0b0110000u16)
    } else if t == seq!['M' as u8] {
        Some(0b1110000u16)
    } else if t == seq!['!' as u8, 'D' as u8] {
        Some(0b0001101u16)
    } else if t == seq!['!' as u8, 'A' as u8] {
        Some(0b0110001u16)
    } else if t == seq!['!' as u8, 'M' as u8] {
        Some(0b1110001u16)
    } else if t == seq!['-' as u8, 'D' as u8] {
        Some(0b0001111u16)
    } else if t == seq!['-' as u8, 'A' as u8] {
        Some(0b0110011u16)
    } else if t == seq!['-' as u8, 'M' as u8] {
        Some(0b1110011u16)
    } else if t == seq!['D' as u8, '+' as u8, '1' as u8] {
        Some(0b0011111u16)
    } else if t == seq!['A' as u8, '+' as u8, '1' as u8] {
        Some(0b0110111u16)
    } else if t == seq!['M' as u8, '+' as u8, '1' as u8] {
        Some(0b1110111u16)
    } else if t == seq!['D' as u8, '-' as u8, '1' as u8] {
        Some(0b0001110u16)
    } else if t == seq!['A' as u8, '-' as u8, '1' as u8] {
        Some(0b0110010u16)
    } else if t == seq!['M' as u8, '-' as u8, '1' as u8] {
        Some(0b1110010u16)
    } else if t == seq!['D' as u8, '+' as u8, 'A' as u8] {
        Some(0b0000010u16)
    } else if t == seq!['D' as u8, '+' as u8, 'M' as u8] {
        Some(0b1000010u16)
    } else if t == seq!['D' as u8, '-' as u8, 'A' as u8] {
        Some(0b0010011u16)
    } else if t == seq!['D' as u8, '-' as u8, 'M' as u8] {
        Some(0b1010011u16)
    } else if t == seq!['A' as u8, '-' as u8, 'D' as u8] {
        Some(0b0000111u16)
    } else if t == seq!['M' as u8, '-' as u8, 'D' as u8] {
        Some(0b1000111u16)
    } else if t == seq!['D' as u8, '&' as u8, 'A' as u8] {
        Some(0b0000000u16)
    } else if t == seq!['D' as u8, '&' as u8, 'M' as u8] {
        Some(0b1000000u16)
    } else if t == seq!['D' as u8, '|' as u8, 'A' as u8] {
        Some(0b0010101u16)
    } else if t == seq!['D' as u8, '|' as u8, 'M' as u8] {
        Some(0b1010101u16)
    } else {
        None
    }
}

fn op_lookup(t: &[u8]) -> (r: Option<u16>)
    ensures
        r == spec_op_code(t@),
{
    if tok_eq1(t, '0' as u8) {
        Some(0b0101010)
    } else if tok_eq1(t, '1' as u8) {
        Some(0b0111111)
    } else if tok_eq2(t, '-' as u8, '1' as u8) {
        Some(0b0111010)
    } else if tok_eq1(t, 'D' as u8) {
        Some(0b0001100)
    } else if tok_eq1(t, 'A' as u8) {
        Some(0b0110000)
    } else if tok_eq1(t, 'M' as u8) {
        Some(0b1110000)
    } else if tok_eq2(t, '!' as u8, 'D' as u8) {
        Some(0b0001101)
    } else if tok_eq2(t, '!' as u8, 'A' as u8) {
        Some(0b0110001)
    } else if tok_eq2(t, '!' as u8, 'M' as u8) {
        Some(0b1110001)
    } else if tok_eq2(t, '-' as u8, 'D' as u8) {
        Some(0b0001111)
    } else if tok_eq2(t, '-' as u8, 'A' as u8) {
        Some(0b0110011)
    } else if tok_eq2(t, '-' as u8, 'M' as u8) {
        Some(0b1110011)
    } else if tok_eq3(t, 'D' as u8, '+' as u8, '1' as u8) {
        Some(0b0011111)
    } else if tok_eq3(t, 'A' as u8, '+' as u8, '1' as u8) {
        Some(0b0110111)
    } else if tok_eq3(t, 'M' as u8, '+' as u8, '1' as u8) {
        Some(0b1110111)
    } else if tok_eq3(t, 'D' as u8, '-' as u8, '1' as u8) {
        Some(0b0001110)
    } else if tok_eq3(t, 'A' as u8, '-' as u8, '1' as u8) {
        Some(0b0110010)
    } else if tok_eq3(t, 'M' as u8, '-' as u8, '1' as u8) {
        Some(0b1110010)
    } else if tok_eq3(t, 'D' as u8, '+' as u8, 'A' as u8) {
        Some(0b0000010)
    } else if tok_eq3(t, 'D' as u8, '+' as u8, 'M' as u8) {
        Some(0b1000010)
    } else if tok_eq3(t, 'D' as u8, '-' as u8, 'A' as u8) {
        Some(0b0010011)
    } else if tok_eq3(t, 'D' as u8, '-' as u8, 'M' as u8) {
        Some(0b1010011)
    } else if tok_eq3(t, 'A' as u8, '-' as u8, 'D' as u8) {
        Some(0b0000111)
    } else if tok_eq3(t, 'M' as u8, '-' as u8, 'D' as u8) {
        Some(0b1000111)
    } else if tok_eq3(t, 'D' as u8, '&' as u8, 'A' as u8) {
        Some(0b0000000)
    } else if tok_eq3(t, 'D' as u8, '&' as u8, 'M' as u8) {
        Some(0b1000000)
    } else if tok_eq3(t, 'D' as u8, '|' as u8, 'A' as u8) {
        Some(0b0010101)
    } else if tok_eq3(t, 'D' as u8, '|' as u8, 'M' as u8) {
        Some(0b1010101)
    } else {
        None
    }
}

/// Every code in the three tables fits its field: jump and destination in
/// 3 bits, operation in 7 bits.
pub proof fn lemma_field_bounds(t: Seq<u8>)
    ensures
        spec_jump_code(t) matches Some(j) ==> j <= 7,
        spec_dest_code(t) matches Some(d) ==> d <= 7,
        spec_op_code(t) matches Some(c) ==> c <= 127,
{
}

// ---------------------------------------------------------------------------
// The three instruction shapes
// ---------------------------------------------------------------------------

/// A memory-reference operand: a literal address, or a symbol that the
/// symbol table resolves during the second pass.
#[derive(Debug)]
pub enum ACommand {
    Constant(u16),
    Symbol(Vec<u8>),
}

/// One classified instruction: a memory reference, a fully encoded compute
/// instruction, or a label definition (which occupies no address).
#[derive(Debug)]
pub enum Command {
    A(ACommand),
    C(u16),
    L(Vec<u8>),
}

/// An instruction paired with the instruction-memory address it would
/// occupy if it is not a label definition.
#[derive(Debug)]
pub struct AsmLine {
    pub address: u16,
    pub command: Command,
}

/// Ghost mirror of `ACommand`.
pub enum ACommandView {
    Constant(u16),
    Symbol(Seq<u8>),
}

/// Ghost mirror of `Command`.
pub enum CommandView {
    A(ACommandView),
    C(u16),
    L(Seq<u8>),
}

/// Ghost mirror of `AsmLine`.
pub struct AsmLineView {
    pub address: u16,
    pub command: CommandView,
}

impl View for ACommand {
    type V = ACommandView;

    open spec fn view(&self) -> ACommandView {
        match self {
            ACommand::Constant(k) => ACommandView::Constant(*k),
            ACommand::Symbol(s) => ACommandView::Symbol(s@),
        }
    }
}

impl View for Command {
    type V = CommandView;

    open spec fn view(&self) -> CommandView {
        match self {
            Command::A(a) => CommandView::A(a@),
            Command::C(w) => CommandView::C(*w),
            Command::L(s) => CommandView::L(s@),
        }
    }
}

impl View for AsmLine {
    type V = AsmLineView;

    open spec fn view(&self) -> AsmLineView {
        AsmLineView { address: self.address, command: self.command@ }
    }
}

// ---------------------------------------------------------------------------
// Classifying one cleaned line
// ---------------------------------------------------------------------------

/// An address-shaped line: the marker followed by a number or an identifier.
pub open spec fn spec_parse_a(l: Seq<u8>, loc: nat) -> Result<ACommandView, ErrView> {
    let rest = l.skip(1);
    if is_number(rest) {
        if numeric_value(rest) < 32768 {
            Ok(ACommandView::Constant(numeric_value(rest) as u16))
        } else {
            Err(ErrView::AddressOutOfRange { text: rest })
        }
    } else if is_symbol(rest) {
        Ok(ACommandView::Symbol(rest))
    } else {
        Err(ErrView::UnrecognizedLine { line: loc, text: l })
    }
}

/// A label-shaped line: exactly an identifier between parentheses.
pub open spec fn spec_parse_l(l: Seq<u8>, loc: nat) -> Result<Seq<u8>, ErrView> {
    if l.len() >= 3 && l.last() == ')' as u8 && is_symbol(l.subrange(1, l.len() - 1)) {
        Ok(l.subrange(1, l.len() - 1))
    } else {
        Err(ErrView::UnrecognizedLine { line: loc, text: l })
    }
}

/// A compute-shaped line: optional `dest=` prefix, mandatory operation,
/// optional `;jump` suffix; at least one of destination and jump present.
/// The three fields are OR'd into non-overlapping bit ranges above the
/// fixed compute-class bits.
pub open spec fn spec_parse_c(l: Seq<u8>) -> Result<u16, ErrView> {
    let e = spec_find_byte(l, '=' as u8);
    let has_dest = e < l.len();
    let rest = if has_dest {
        l.skip(e + 1 as int)
    } else {
        l
    };
    let s = spec_find_byte(rest, ';' as u8);
    let has_jump = s < rest.len();
    let op = rest.take(s as int);
    if !has_dest && !has_jump {
        Err(ErrView::MissingEffect)
    } else {
        let jc = if has_jump {
            spec_jump_code(rest.skip(s + 1 as int))
        } else {
            Some(0u16)
        };
        match jc {
            None => Err(ErrView::InvalidJump { token: rest.skip(s + 1 as int) }),
            Some(j) => {
                let dc = if has_dest {
                    spec_dest_code(l.take(e as int))
                } else {
                    Some(0u16)
                };
                match dc {
                    None => Err(ErrView::InvalidDestination { token: l.take(e as int) }),
                    Some(d) => match spec_op_code(op) {
                        None => Err(ErrView::InvalidOperation { token: op }),
                        Some(c) => Ok((0b1110_0000_0000_0000 + c * 64 + d * 8 + j) as u16),
                    },
                }
            },
        }
    }
}

/// Which of the three shapes a non-empty cleaned line has, and its
/// classification. The shapes are mutually exclusive by construction:
/// the first byte decides between address, label and compute.
pub open spec fn spec_parse_line(l: Seq<u8>, loc: nat) -> Result<CommandView, ErrView> {
    if l.len() == 0 {
        Err(ErrView::UnrecognizedLine { line: loc, text: l })
    } else if l[0] == '@' as u8 {
        match spec_parse_a(l, loc) {
            Ok(a) => Ok(CommandView::A(a)),
            Err(e) => Err(e),
        }
    } else if l[0] == '(' as u8 {
        match spec_parse_l(l, loc) {
            Ok(name) => Ok(CommandView::L(name)),
            Err(e) => Err(e),
        }
    } else {
        match spec_parse_c(l) {
            Ok(w) => Ok(CommandView::C(w)),
            Err(e) => Err(e),
        }
    }
}

fn check_number(s: &[u8]) -> (r: bool)
    ensures
        r == is_number(s@),
{
    let n = s.len();
    if n == 0 {
        return false;
    }
    let mut i: usize = 0;
    while i < n
        invariant
            i <= n,
            n == s@.len(),
            forall|j: int| 0 <= j < i ==> is_digit(#[trigger] s@[j]),
        decreases n - i,
    {
        if !is_digit_b(s[i]) {
            return false;
        }
        i += 1;
    }
    true
}

fn check_symbol(s: &[u8]) -> (r: bool)
    ensures
        r == is_symbol(s@),
{
    let n = s.len();
    if n == 0 {
        return false;
    }
    if !is_symbol_start_b(s[0]) {
        return false;
    }
    let mut i: usize = 1;
    while i < n
        invariant
            1 <= i <= n,
            n == s@.len(),
            forall|j: int| 1 <= j < i ==> is_symbol_byte(#[trigger] s@[j]),
        decreases n - i,
    {
        if !is_symbol_byte_b(s[i]) {
            return false;
        }
        i += 1;
    }
    true
}

/// The value of a run of digits, saturating detection of 15-bit overflow:
/// either the exact value below 32768, or the certainty that the value is
/// at least 32768.
fn digits_value(s: &[u8]) -> (v: u32)
    requires
        is_number(s@),
    ensures
        v < 32768 ==> v as nat == numeric_value(s@),
        v >= 32768 ==> numeric_value(s@) >= 32768,
{
    let n = s.len();
    let mut v: u32 = 0;
    let mut i: usize = 0;
    while i < n
        invariant
            i <= n,
            n == s@.len(),
            is_number(s@),
            v < 327680,
            v < 32768 ==> v as nat == numeric_value(s@.take(i as int)),
            v >= 32768 ==> numeric_value(s@.take(i as int)) >= 32768,
        decreases n - i,
    {
        proof {
            assert(s@.take(i + 1).drop_last() =~= s@.take(i as int));
            assert(s@.take(i + 1).last() == s@[i as int]);
        }
        let d = s[i] - '0' as u8;
        if v < 32768 {
            v = v * 10 + d as u32;
        }
        i += 1;
    }
    proof {
        assert(s@.take(n as int) =~= s@);
    }
    v
}

impl AsmLine {
    /// Classify and encode one cleaned, non-empty line, at the given
    /// source line number and instruction address.
    pub fn parse(loc: u64, address: u16, line: &[u8]) -> (r: Result<AsmLine, AsmError>)
        ensures
            (match spec_parse_line(line@, loc as nat) {
                Ok(cmd) => r matches Ok(al) && al.address == address && al.command@ == cmd,
                Err(e) => r matches Err(x) && x@ == e,
            }),
    {
        if line.len() == 0 {
            return Err(AsmError::UnrecognizedLine { line: loc, text: slice_to_vec(line) });
        }
        let command = if line[0] == '@' as u8 {
            match Self::parse_a(loc, line) {
                Ok(a) => Command::A(a),
                Err(e) => return Err(e),
            }
        } else if line[0] == '(' as u8 {
            match Self::parse_l(loc, line) {
                Ok(name) => Command::L(name),
                Err(e) => return Err(e),
            }
        } else {
            match Self::parse_c(line) {
                Ok(w) => Command::C(w),
                Err(e) => return Err(e),
            }
        };
        Ok(AsmLine { address, command })
    }

    fn parse_a(loc: u64, line: &[u8]) -> (r: Result<ACommand, AsmError>)
        requires
            line@.len() > 0,
            line@[0] == '@' as u8,
        ensures
            (match spec_parse_a(line@, loc as nat) {
                Ok(a) => r matches Ok(x) && x@ == a,
                Err(e) => r matches Err(x) && x@ == e,
            }),
    {
        let rest = slice_subrange(line, 1, line.len());
        proof {
            assert(rest@ =~= line@.skip(1));
        }
        if check_number(rest) {
            let v = digits_value(rest);
            if v < 32768 {
                Ok(ACommand::Constant(v as u16))
            } else {
                Err(AsmError::AddressOutOfRange { text: slice_to_vec(rest) })
            }
        } else if check_symbol(rest) {
            Ok(ACommand::Symbol(slice_to_vec(rest)))
        } else {
            Err(AsmError::UnrecognizedLine { line: loc, text: slice_to_vec(line) })
        }
    }

    fn parse_l(loc: u64, line: &[u8]) -> (r: Result<Vec<u8>, AsmError>)
        requires
            line@.len() > 0,
            line@[0] == '(' as u8,
        ensures
            (match spec_parse_l(line@, loc as nat) {
                Ok(name) => r matches Ok(v) && v@ == name,
                Err(e) => r matches Err(x) && x@ == e,
            }),
    {
        let n = line.len();
        if n >= 3 && line[n - 1] == ')' as u8 {
            let mid = slice_subrange(line, 1, n - 1);
            if check_symbol(mid) {
                return Ok(slice_to_vec(mid));
            }
        }
        Err(AsmError::UnrecognizedLine { line: loc, text: slice_to_vec(line) })
    }

    fn parse_c(line: &[u8]) -> (r: Result<u16, AsmError>)
        ensures
            (match spec_parse_c(line@) {
                Ok(w) => r matches Ok(x) && x == w,
                Err(e) => r matches Err(x) && x@ == e,
            }),
    {
        let n = line.len();
        let e = find_byte(line, '=' as u8);
        proof {
            lemma_find_byte(line@, '=' as u8);
        }
        let has_dest = e < n;
        let rest: &[u8] = if has_dest {
            slice_subrange(line, e + 1, n)
        } else {
            line
        };
        proof {
            if has_dest {
                assert(rest@ =~= line@.skip(e + 1));
            }
        }
        let s = find_byte(rest, ';' as u8);
        proof {
            lemma_find_byte(rest@, ';' as u8);
        }
        let has_jump = s < rest.len();
        if !has_dest && !has_jump {
            return Err(AsmError::MissingEffect);
        }
        let mut jcode: u16 = 0;
        if has_jump {
            let jmp = slice_subrange(rest, s + 1, rest.len());
            proof {
                assert(jmp@ =~= rest@.skip(s + 1));
            }
            match jump_lookup(jmp) {
                Some(c) => jcode = c,
                None => return Err(AsmError::InvalidJump { token: slice_to_vec(jmp) }),
            }
        }
        let mut dcode: u16 = 0;
        if has_dest {
            let dest = slice_subrange(line, 0, e);
            proof {
                assert(dest@ =~= line@.take(e as int));
            }
            match dest_lookup(dest) {
                Some(c) => dcode = c,
                None => return Err(AsmError::InvalidDestination { token: slice_to_vec(dest) }),
            }
        }
        let op = slice_subrange(rest, 0, s);
        proof {
            assert(op@ =~= rest@.take(s as int));
            lemma_field_bounds(op@);
            lemma_field_bounds(rest@.skip(s + 1));
            lemma_field_bounds(line@.take(e as int));
        }
        match op_lookup(op) {
            Some(c) => Ok(0b1110_0000_0000_0000u16 + c * 64 + dcode * 8 + jcode),
            None => Err(AsmError::InvalidOperation { token: slice_to_vec(op) }),
        }
    }
}

// ---------------------------------------------------------------------------
// Preprocessing: strip comments and horizontal whitespace
// ---------------------------------------------------------------------------

/// One left-to-right pass over the raw text: everything from `//` to the
/// end of its line goes, every space and tab goes, all else stays. Blank
/// lines survive so that line numbers remain meaningful.
pub open spec fn spec_strip_from(s: Seq<u8>, in_comment: bool) -> Seq<u8>
    decreases s.len(),
{
    if s.len() == 0 {
        seq![]
    } else if in_comment {
        if s[0] == '\n' as u8 {
            seq!['\n' as u8] + spec_strip_from(s.skip(1), false)
        } else {
            spec_strip_from(s.skip(1), true)
        }
    } else if s.len() >= 2 && s[0] == '/' as u8 && s[1] == '/' as u8 {
        spec_strip_from(s.skip(2), true)
    } else if s[0] == ' ' as u8 || s[0] == '\t' as u8 {
        spec_strip_from(s.skip(1), false)
    } else {
        seq![s[0]] + spec_strip_from(s.skip(1), false)
    }
}

/// The cleaned form of a raw source buffer.
pub open spec fn spec_strip(s: Seq<u8>) -> Seq<u8> {
    spec_strip_from(s, false)
}

proof fn lemma_push_assoc(a: Seq<u8>, x: u8, r: Seq<u8>)
    ensures
        a + (seq![x] + r) == a.push(x) + r,
{
    assert(a + (seq![x] + r) =~= a.push(x) + r);
}

fn strip(input: &[u8]) -> (out: Vec<u8>)
    ensures
        out@ == spec_strip(input@),
{
    let n = input.len();
    let mut out: Vec<u8> = Vec::new();
    let mut i: usize = 0;
    let mut in_comment = false;
    proof {
        assert(input@.skip(0) =~= input@);
        assert(out@ + spec_strip_from(input@, false) =~= spec_strip_from(input@, false));
    }
    while i < n
        invariant
            i <= n,
            spec_strip(input@) == out@ + spec_strip_from(input@.skip(i as int), in_comment),
        decreases n - i,
    {
        proof {
            assert(input@.skip(i as int)[0] == input@[i as int]);
            assert(input@.skip(i as int).skip(1) =~= input@.skip(i + 1));
            if i + 1 < n {
                assert(input@.skip(i as int)[1] == input@[i + 1]);
                assert(input@.skip(i as int).skip(2) =~= input@.skip(i + 2));
            }
        }
        let b = input[i];
        if in_comment {
            if b == '\n' as u8 {
                proof {
                    lemma_push_assoc(out@, b, spec_strip_from(input@.skip(i + 1), false));
                }
                out.push(b);
                in_comment = false;
            }
            i += 1;
        } else if b == '/' as u8 && i + 1 < n && input[i + 1] == '/' as u8 {
            in_comment = true;
            i += 2;
        } else if b == ' ' as u8 || b == '\t' as u8 {
            i += 1;
        } else {
            proof {
                lemma_push_assoc(out@, b, spec_strip_from(input@.skip(i + 1), false));
            }
            out.push(b);
            i += 1;
        }
    }
    proof {
        assert(input@.skip(n as int) =~= Seq::<u8>::empty());
        assert(out@ + spec_strip_from(input@.skip(n as int), in_comment) =~= out@);
    }
    out
}

// ---------------------------------------------------------------------------
// Splitting the cleaned text into physical lines
// ---------------------------------------------------------------------------

/// A line with a trailing carriage return loses it, as `str::lines` does.
pub open spec fn chomp_cr(l: Seq<u8>) -> Seq<u8> {
    if l.len() > 0 && l.last() == '\r' as u8 {
        l.drop_last()
    } else {
        l
    }
}

/// The physical lines of the cleaned text: split at every newline, with no
/// final empty segment after a trailing newline.
pub open spec fn spec_lines(s: Seq<u8>) -> Seq<Seq<u8>>
    decreases s.len(),
{
    if s.len() == 0 {
        seq![]
    } else {
        let i = spec_find_byte(s, '\n' as u8);
        if i >= s.len() {
            seq![chomp_cr(s)]
        } else {
            seq![chomp_cr(s.take(i as int))] + spec_lines(s.skip(i + 1 as int))
        }
    }
}

// ---------------------------------------------------------------------------
// The preprocessed-text holder and the instruction stream
// ---------------------------------------------------------------------------

/// The cleaned source buffer from which both passes re-derive the
/// instruction stream.
pub struct Parser {
    pub text: Vec<u8>,
}

/// Is this classified instruction a label definition?
pub open spec fn is_label(cmd: CommandView) -> bool {
    match cmd {
        CommandView::L(_) => true,
        _ => false,
    }
}

/// What one step of the instruction stream yields: exhaustion, one located
/// instruction together with the state after it, or the error that ends
/// the stream.
pub enum StreamStep {
    Done,
    Item { line: AsmLineView, rest: Seq<Seq<u8>>, loc: nat, addr: u16 },
    Fail { err: ErrView },
}

/// One step of the stream: skip empty lines (counting them), classify the
/// first non-empty one, and move the address counter past every non-label
/// instruction.
pub open spec fn stream_next(ls: Seq<Seq<u8>>, loc: nat, addr: u16) -> StreamStep
    decreases ls.len(),
{
    if ls.len() == 0 {
        StreamStep::Done
    } else if ls[0].len() == 0 {
        stream_next(ls.skip(1), loc + 1, addr)
    } else {
        match spec_parse_line(ls[0], loc + 1) {
            Ok(cmd) => if !is_label(cmd) && addr == 0xFFFFu16 {
                StreamStep::Fail { err: ErrView::ProgramTooLarge }
            } else {
                StreamStep::Item {
                    line: AsmLineView { address: addr, command: cmd },
                    rest: ls.skip(1),
                    loc: loc + 1,
                    addr: if is_label(cmd) {
                        addr
                    } else {
                        (addr + 1) as u16
                    },
                }
            },
            Err(e) => StreamStep::Fail { err: e },
        }
    }
}

/// Consuming one physical line of the suffix at `pos` peels the first
/// element off its line sequence.
proof fn lemma_scan_step(text: Seq<u8>, pos: int, rel: int, end: int, new_pos: int)
    requires
        0 <= pos < text.len(),
        rel == spec_find_byte(text.skip(pos), '\n' as u8),
        end == if rel > 0 && text[pos + rel - 1] == '\r' as u8 {
            pos + rel - 1
        } else {
            pos + rel
        },
        new_pos == if pos + rel < text.len() {
            pos + rel + 1
        } else {
            text.len() as int
        },
    ensures
        pos + rel <= text.len(),
        pos <= end <= text.len(),
        pos < new_pos <= text.len(),
        spec_lines(text.skip(pos)) == seq![text.subrange(pos, end)] + spec_lines(
            text.skip(new_pos),
        ),
        spec_lines(text.skip(pos))[0] == text.subrange(pos, end),
        spec_lines(text.skip(pos)).skip(1) == spec_lines(text.skip(new_pos)),
{
    let tail = text.skip(pos);
    lemma_find_byte(tail, '\n' as u8);
    assert(tail.take(rel) =~= text.subrange(pos, pos + rel));
    if end < pos + rel {
        assert(tail.take(rel).drop_last() =~= text.subrange(pos, end));
    }
    assert(text.subrange(pos, end) =~= chomp_cr(tail.take(rel)));
    if rel < tail.len() {
        assert(tail.skip(rel + 1) =~= text.skip(new_pos));
    } else {
        assert(tail.take(rel) =~= tail);
        assert(text.skip(new_pos) =~= Seq::<u8>::empty());
    }
    assert(spec_lines(tail) == seq![text.subrange(pos, end)] + spec_lines(text.skip(new_pos)));
    assert(spec_lines(tail).skip(1) =~= spec_lines(text.skip(new_pos)));
}

/// The lazy, position-tracked sequence of classified instructions over the
/// cleaned text. After yielding an error it yields nothing further.
pub struct AsmLines<'a> {
    pub text: &'a [u8],
    pub pos: usize,
    pub current_address: u16,
    pub current_loc: u64,
    pub failed: bool,
}

impl<'a> AsmLines<'a> {
    /// The position sits inside the text and the line counter cannot
    /// outrun it.
    pub open spec fn wf(&self) -> bool {
        self.pos <= self.text@.len() && self.current_loc as int <= self.pos as int
    }

    /// The physical lines not yet consumed.
    pub open spec fn rest(&self) -> Seq<Seq<u8>> {
        spec_lines(self.text@.skip(self.pos as int))
    }

    /// Yield the next classified instruction, skipping (but counting)
    /// empty lines; yield the first error and then nothing more.
    #[verifier::rlimit(100)]
    pub fn next(&mut self) -> (r: Option<Result<AsmLine, AsmError>>)
        requires
            old(self).wf(),
        ensures
            final(self).wf(),
            final(self).text == old(self).text,
            old(self).failed ==> r is None && *final(self) == *old(self),
            !old(self).failed ==> (match stream_next(
                old(self).rest(),
                old(self).current_loc as nat,
                old(self).current_address,
            ) {
                StreamStep::Done => r is None && !final(self).failed && final(self).rest()
                    == Seq::<Seq<u8>>::empty(),
                StreamStep::Item { line, rest, loc, addr } => {
                    &&& r matches Some(Ok(al)) && al@ == line
                    &&& !final(self).failed
                    &&& final(self).rest() == rest
                    &&& final(self).rest().len() < old(self).rest().len()
                    &&& final(self).current_loc as nat == loc
                    &&& final(self).current_address == addr
                },
                StreamStep::Fail { err } => {
                    &&& r matches Some(Err(e)) && e@ == err
                    &&& final(self).failed
                },
            }),
    {
        if self.failed {
            return None;
        }
        loop
            invariant
                self.wf(),
                !self.failed,
                self.text == old(self).text,
                self.current_address == old(self).current_address,
                self.rest().len() <= old(self).rest().len(),
                stream_next(
                    old(self).rest(),
                    old(self).current_loc as nat,
                    old(self).current_address,
                ) == stream_next(self.rest(), self.current_loc as nat, self.current_address),
            decreases self.text@.len() - self.pos,
        {
            let n = self.text.len();
            if self.pos == n {
                proof {
                    assert(self.text@.skip(self.pos as int) =~= Seq::<u8>::empty());
                }
                return None;
            }
            let tail = slice_subrange(self.text, self.pos, n);
            let rel = find_byte(tail, '\n' as u8);
            proof {
                lemma_find_byte(tail@, '\n' as u8);
            }
            let raw_end = self.pos + rel;
            let end = if rel > 0 && self.text[raw_end - 1] == '\r' as u8 {
                raw_end - 1
            } else {
                raw_end
            };
            let line = slice_subrange(self.text, self.pos, end);
            let new_pos = if raw_end < n {
                raw_end + 1
            } else {
                n
            };

            proof {
                assert(tail@ =~= self.text@.skip(self.pos as int));
                lemma_scan_step(
                    self.text@,
                    self.pos as int,
                    rel as int,
                    end as int,
                    new_pos as int,
                );
                assert(line@ =~= self.text@.subrange(self.pos as int, end as int));
            }
            self.pos = new_pos;
            self.current_loc = self.current_loc + 1;
            if line.len() == 0 {
                // an empty physical line yields nothing but counts
            } else {
                match AsmLine::parse(self.current_loc, self.current_address, line) {
                    Ok(al) => {
                        let is_l = match &al.command {
                            Command::L(_) => true,
                            _ => false,
                        };
                        if is_l {
                            return Some(Ok(al));
                        }
                        if self.current_address == 0xFFFFu16 {
                            self.failed = true;
                            return Some(Err(AsmError::ProgramTooLarge));
                        }
                        self.current_address = self.current_address + 1;
                        return Some(Ok(al));
                    },
                    Err(e) => {
                        self.failed = true;
                        return Some(Err(e));
                    },
                }
            }
        }
    }
}

impl Parser {
    /// Preprocess raw source text once: comments and horizontal
    /// whitespace go; line structure stays.
    pub fn from_string(text: &str) -> (p: Parser)
        ensures
            p.text@ == spec_strip(text.spec_bytes()),
    {
        let bytes: &[u8] = text.as_bytes();
        Parser { text: strip(bytes) }
    }

    /// A fresh stream over the cleaned text, at address 0 and line 0.
    pub fn iter(&self) -> (r: AsmLines)
        ensures
            r.wf(),
            r.failed == false,
            r.current_address == 0,
            r.current_loc == 0,
            r.rest() == spec_lines(self.text@),
    {
        let r = AsmLines {
            text: self.text.as_slice(),
            pos: 0,
            current_address: 0,
            current_loc: 0,
            failed: false,
        };
        proof {
            assert(r.text@.skip(0) =~= self.text@);
        }
        r
    }
}

} // verus!
