//! Laws of the assembler that relate several of its functions, stated over
//! the same spec functions the contracts use.

use vstd::prelude::*;
use vstd::arithmetic::div_mod::{lemma_basic_div, lemma_fundamental_div_mod};
use crate::error::ErrView;
use crate::parser::{chomp_cr, is_digit, is_number, is_symbol, is_symbol_byte, lemma_find_byte,
    numeric_value, spec_dest_code, spec_find_byte, spec_jump_code, spec_lines, spec_op_code,
    spec_parse_line, spec_strip, ACommandView, CommandView};
use crate::symbol_table::{seeded, spec_first_pass, spec_resolve};
use crate::{spec_assemble, spec_second_pass, two_pow, word_bits};

verus! {

// ---------------------------------------------------------------------------
// Lazy variable allocation
// ---------------------------------------------------------------------------

/// Variables are allocated from address 16 up, one per new name in
/// first-use order, and re-resolving a name is idempotent: with a fresh
/// table, a first new identifier gets 16, a second distinct one gets 17,
/// and the first one still resolves to 16.
pub proof fn lemma_variable_allocation(n1: Seq<u8>, n2: Seq<u8>)
    requires
        !seeded().contains_key(n1),
        !seeded().contains_key(n2),
        n1 != n2,
    ensures
        ({
            let (m1, ram1, a1) = spec_resolve(seeded(), 16, n1);
            let (m2, ram2, a2) = spec_resolve(m1, ram1, n2);
            let (m3, ram3, a3) = spec_resolve(m2, ram2, n1);
            a1 == 16 && a2 == 17 && a3 == 16
        }),
{
}

// ---------------------------------------------------------------------------
// Preprocessing touches nothing but comments and horizontal whitespace
// ---------------------------------------------------------------------------

/// A byte that preprocessing can never remove.
pub open spec fn clean_byte(b: u8) -> bool {
    b != '/' as u8 && b != ' ' as u8 && b != '\t' as u8
}

pub open spec fn clean_seq(s: Seq<u8>) -> bool {
    forall|i: int| 0 <= i < s.len() ==> clean_byte(#[trigger] s[i])
}

/// Stripping is the identity on text that holds no slash, space or tab.
pub proof fn lemma_strip_clean(s: Seq<u8>)
    requires
        clean_seq(s),
    ensures
        spec_strip(s) == s,
    decreases s.len(),
{
    if s.len() > 0 {
        assert(forall|i: int| 0 <= i < s.skip(1).len() ==> s.skip(1)[i] == s[i + 1]);
        lemma_strip_clean(s.skip(1));
        assert(seq![s[0]] + s.skip(1) =~= s);
    }
}

// ---------------------------------------------------------------------------
// Encoding of address immediates
// ---------------------------------------------------------------------------

/// The decimal digits of `k`, most significant first.
pub open spec fn spec_decimal(k: nat) -> Seq<u8>
    decreases k,
{
    if k < 10 {
        seq![(k + '0' as u8) as u8]
    } else {
        spec_decimal(k / 10).push((k % 10 + '0' as u8) as u8)
    }
}

/// Writing a number in decimal and reading it back is the identity.
pub proof fn lemma_decimal(k: nat)
    ensures
        is_number(spec_decimal(k)),
        numeric_value(spec_decimal(k)) == k,
    decreases k,
{
    if k < 10 {
        let d = ((k + '0' as u8) as u8);
        assert(spec_decimal(k) == seq![d]);
        assert(seq![d].drop_last() =~= Seq::<u8>::empty());
        assert(numeric_value(Seq::<u8>::empty()) == 0);
        assert(numeric_value(seq![d]) == 0 * 10 + (d - '0' as u8) as nat);
        assert((d - '0' as u8) as nat == k);
    } else {
        lemma_decimal(k / 10);
        let s = spec_decimal(k / 10);
        let d = ((k % 10 + '0' as u8) as u8);
        assert(s.push(d).drop_last() =~= s);
        lemma_fundamental_div_mod(k as int, 10);
        assert((d - '0' as u8) as nat == k % 10);
        assert(numeric_value(s.push(d)) == numeric_value(s) * 10 + (d - '0' as u8) as nat);
        assert(numeric_value(s) * 10 + k % 10 == k);
        assert(forall|i: int|
            0 <= i < s.push(d).len() ==> is_digit(#[trigger] s.push(d)[i]));
    }
}

/// An unconditional-jump line encodes to the fixed jump word.
#[verifier::rlimit(100)]
#[verifier::spinoff_prover]
proof fn lemma_jump_line(loc: nat)
    ensures
        spec_parse_line(
            seq!['0' as u8, ';' as u8, 'J' as u8, 'M' as u8, 'P' as u8],
            loc,
        ) == Ok::<CommandView, ErrView>(CommandView::C(0b1110_1010_1000_0111u16)),
{
    let l2 = seq!['0' as u8, ';' as u8, 'J' as u8, 'M' as u8, 'P' as u8];
    lemma_find_byte(l2, '=' as u8);
    assert(spec_find_byte(l2, '=' as u8) == 5);
    lemma_find_byte(l2, ';' as u8);
    assert(spec_find_byte(l2, ';' as u8) == 1);
    assert(l2.take(1) =~= seq!['0' as u8]);
    assert(l2.skip(2) =~= seq!['J' as u8, 'M' as u8, 'P' as u8]);
    assert(spec_jump_code(l2.skip(2)) == Some(7u16));
    assert(spec_op_code(l2.take(1)) == Some(0b0101010u16));
}

/// Assembling `@k` followed by an unconditional jump yields first the word
/// `k` itself — top bit zero, the low fifteen bits `k`'s binary
/// representation — then the jump word.
#[verifier::rlimit(100)]
#[verifier::spinoff_prover]
pub proof fn lemma_address_immediate(k: u16)
    requires
        k < 32768,
    ensures
        ({
            let src = seq!['@' as u8] + spec_decimal(k as nat) + seq!['\n' as u8] + seq![
                '0' as u8,
                ';' as u8,
                'J' as u8,
                'M' as u8,
                'P' as u8,
            ];
            &&& spec_assemble(src) == Ok::<Seq<u16>, ErrView>(
                seq![k, 0b1110_1010_1000_0111u16],
            )
            &&& word_bits(k)[0] == '0'
        }),
{
    let dec = spec_decimal(k as nat);
    lemma_decimal(k as nat);
    let l1 = seq!['@' as u8] + dec;
    let l2 = seq!['0' as u8, ';' as u8, 'J' as u8, 'M' as u8, 'P' as u8];
    let src = l1 + seq!['\n' as u8] + l2;
    assert(clean_seq(src)) by {
        assert forall|i: int| 0 <= i < src.len() implies clean_byte(src[i]) by {
            if 1 <= i < l1.len() {
                assert(is_digit(dec[i - 1]));
            }
        }
    }
    lemma_strip_clean(src);
    // the two physical lines
    lemma_find_byte(src, '\n' as u8);
    let f = spec_find_byte(src, '\n' as u8);
    assert(src[l1.len() as int] == '\n' as u8);
    assert forall|j: int| 0 <= j < l1.len() implies src[j] != '\n' as u8 by {
        if j >= 1 {
            assert(is_digit(dec[j - 1]));
        }
    }
    assert(f == l1.len());
    assert(src.take(f as int) =~= l1);
    assert(src.skip(f + 1 as int) =~= l2);
    assert(is_digit(dec[dec.len() - 1]));
    assert(chomp_cr(l1) == l1);
    lemma_find_byte(l2, '\n' as u8);
    assert(spec_find_byte(l2, '\n' as u8) == 5);
    assert(chomp_cr(l2) == l2);
    assert(spec_lines(l2) =~= seq![l2]);
    let ls = spec_lines(src);
    assert(ls =~= seq![l1, l2]);
    // line 1 classifies as an address immediate
    assert(l1.skip(1) =~= dec);
    assert(spec_parse_line(l1, 1) == Ok::<CommandView, ErrView>(
        CommandView::A(ACommandView::Constant(k)),
    ));
    // line 2 classifies as an unconditional jump
    lemma_jump_line(2);
    // both passes, unfolded over the two lines
    let w2 = 0b1110_1010_1000_0111u16;
    let none = Seq::<Seq<u8>>::empty();
    assert(ls.skip(1) =~= seq![l2]);
    assert(seq![l2].skip(1) =~= none);
    assert(ls[0] == l1 && seq![l2][0] == l2);
    assert(spec_first_pass(none, 2, 2, seeded()) == Ok::<Map<Seq<u8>, u16>, ErrView>(seeded()));
    assert(spec_first_pass(seq![l2], 1, 1, seeded()) == Ok::<Map<Seq<u8>, u16>, ErrView>(
        seeded(),
    ));
    assert(spec_first_pass(ls, 0, 0, seeded()) == Ok::<Map<Seq<u8>, u16>, ErrView>(seeded()));
    assert(spec_second_pass(none, 2, 2, seeded(), 16) == Ok::<Seq<u16>, ErrView>(seq![]));
    assert(spec_second_pass(seq![l2], 1, 1, seeded(), 16) == Ok::<Seq<u16>, ErrView>(
        seq![w2] + seq![],
    ));
    assert(spec_second_pass(ls, 0, 0, seeded(), 16) == Ok::<Seq<u16>, ErrView>(
        seq![k] + (seq![w2] + seq![]),
    ));
    assert(seq![k] + (seq![w2] + seq![]) =~= seq![k, w2]);
    assert(two_pow(15) == 32768) by {
        reveal_with_fuel(two_pow, 17);
    }
    lemma_basic_div(k as int, 32768);
    assert(k as nat / two_pow((15 - 0) as nat) == 0);
    assert(word_bits(k)[0] == '0');
}

// ---------------------------------------------------------------------------
// Round-trip idempotence of preprocessing
// ---------------------------------------------------------------------------

/// Every mnemonic in the three tables consists of clean bytes.
#[verifier::rlimit(100)]
#[verifier::spinoff_prover]
proof fn lemma_table_token_clean(t: Seq<u8>)
    ensures
        spec_jump_code(t) is Some ==> clean_seq(t),
        spec_dest_code(t) is Some ==> clean_seq(t),
        spec_op_code(t) is Some ==> clean_seq(t),
{
}

/// A line that classifies as an instruction holds no slash, space or tab:
/// preprocessing can touch none of its bytes.
#[verifier::rlimit(100)]
#[verifier::spinoff_prover]
proof fn lemma_parse_ok_clean(l: Seq<u8>, loc: nat)
    requires
        spec_parse_line(l, loc) is Ok,
    ensures
        clean_seq(l),
{
    if l.len() == 0 {
    } else if l[0] == '@' as u8 {
        let rest = l.skip(1);
        assert forall|i: int| 0 <= i < l.len() implies clean_byte(l[i]) by {
            if i >= 1 {
                assert(l[i] == rest[i - 1]);
                if is_number(rest) {
                    assert(is_digit(rest[i - 1]));
                } else {
                    assert(is_symbol(rest));
                    if i >= 2 {
                        assert(is_symbol_byte(rest[i - 1]));
                    }
                }
            }
        }
    } else if l[0] == '(' as u8 {
        let mid = l.subrange(1, l.len() - 1);
        assert forall|i: int| 0 <= i < l.len() implies clean_byte(l[i]) by {
            if 1 <= i < l.len() - 1 {
                assert(l[i] == mid[i - 1]);
                if i >= 2 {
                    assert(is_symbol_byte(mid[i - 1]));
                }
            }
        }
    } else {
        let e = spec_find_byte(l, '=' as u8);
        let has_dest = e < l.len();
        let rest = if has_dest {
            l.skip(e + 1 as int)
        } else {
            l
        };
        let base: int = if has_dest {
            e + 1 as int
        } else {
            0
        };
        let s = spec_find_byte(rest, ';' as u8);
        let has_jump = s < rest.len();
        let op = rest.take(s as int);
        lemma_find_byte(l, '=' as u8);
        lemma_find_byte(rest, ';' as u8);
        lemma_table_token_clean(op);
        lemma_table_token_clean(l.take(e as int));
        lemma_table_token_clean(rest.skip(s + 1 as int));
        assert forall|i: int| 0 <= i < l.len() implies clean_byte(l[i]) by {
            if has_dest && i < e {
                assert(l[i] == l.take(e as int)[i]);
            } else if has_dest && i == e {
                assert(l[i] == '=' as u8);
            } else {
                let j = i - base;
                assert(l[i] == rest[j]);
                if j < s {
                    assert(rest[j] == op[j]);
                } else if j == s {
                    assert(rest[j] == ';' as u8);
                } else {
                    assert(rest[j] == rest.skip(s + 1 as int)[j - s - 1]);
                }
            }
        }
    }
}

/// If the second pass succeeds, every line of the text is clean.
proof fn lemma_pass2_clean(ls: Seq<Seq<u8>>, loc: nat, addr: u16, m: Map<Seq<u8>, u16>, ram: u16)
    requires
        spec_second_pass(ls, loc, addr, m, ram) is Ok,
    ensures
        forall|i: int| 0 <= i < ls.len() ==> clean_seq(#[trigger] ls[i]),
    decreases ls.len(),
{
    if ls.len() == 0 {
    } else {
        if ls[0].len() == 0 {
            lemma_pass2_clean(ls.skip(1), loc + 1, addr, m, ram);
        } else {
            match spec_parse_line(ls[0], loc + 1) {
                Ok(cmd) => {
                    lemma_parse_ok_clean(ls[0], loc + 1);
                    match cmd {
                        CommandView::L(_) => {
                            lemma_pass2_clean(ls.skip(1), loc + 1, addr, m, ram);
                        },
                        CommandView::A(ACommandView::Constant(_)) => {
                            lemma_pass2_clean(ls.skip(1), loc + 1, (addr + 1) as u16, m, ram);
                        },
                        CommandView::A(ACommandView::Symbol(sym)) => {
                            let (m2, ram2, _a) = spec_resolve(m, ram, sym);
                            lemma_pass2_clean(ls.skip(1), loc + 1, (addr + 1) as u16, m2, ram2);
                        },
                        CommandView::C(_) => {
                            lemma_pass2_clean(ls.skip(1), loc + 1, (addr + 1) as u16, m, ram);
                        },
                    }
                },
                Err(_) => {
                    assert(false);
                },
            }
        }
        assert forall|i: int| 0 <= i < ls.len() implies clean_seq(#[trigger] ls[i]) by {
            if i > 0 {
                assert(ls[i] == ls.skip(1)[i - 1]);
            }
        }
    }
}

/// Text all of whose lines are clean is clean itself: the only bytes not
/// inside a line are newlines and the carriage returns before them.
proof fn lemma_clean_lines(t: Seq<u8>)
    requires
        forall|i: int| 0 <= i < spec_lines(t).len() ==> clean_seq(#[trigger] spec_lines(t)[i]),
    ensures
        clean_seq(t),
    decreases t.len(),
{
    if t.len() > 0 {
        lemma_find_byte(t, '\n' as u8);
        let f = spec_find_byte(t, '\n' as u8);
        if f >= t.len() {
            let line = chomp_cr(t);
            assert(spec_lines(t)[0] == line);
            assert forall|i: int| 0 <= i < t.len() implies clean_byte(t[i]) by {
                if i < line.len() {
                    assert(t[i] == line[i]);
                } else {
                    assert(t[i] == '\r' as u8);
                }
            }
        } else {
            let head = t.take(f as int);
            let line = chomp_cr(head);
            let rest = t.skip(f + 1 as int);
            assert(spec_lines(t)[0] == line);
            assert forall|i: int| 0 <= i < spec_lines(rest).len() implies clean_seq(
                #[trigger] spec_lines(rest)[i],
            ) by {
                assert(spec_lines(rest)[i] == spec_lines(t)[i + 1]);
            }
            lemma_clean_lines(rest);
            assert forall|i: int| 0 <= i < t.len() implies clean_byte(t[i]) by {
                if i < f {
                    assert(t[i] == head[i]);
                    if i < line.len() {
                        assert(head[i] == line[i]);
                    } else {
                        assert(head[i] == '\r' as u8);
                    }
                } else if i > f {
                    assert(t[i] == rest[i - f - 1]);
                }
            }
        }
    }
}

/// Round-trip idempotence: re-assembling the already-stripped form of a
/// valid program yields exactly what assembling the original yields, since
/// stripping a valid program's cleaned text changes nothing.
pub proof fn lemma_round_trip(s: Seq<u8>)
    requires
        spec_assemble(s) is Ok,
    ensures
        spec_strip(spec_strip(s)) == spec_strip(s),
        spec_assemble(spec_strip(s)) == spec_assemble(s),
{
    let t = spec_strip(s);
    match spec_first_pass(spec_lines(t), 0, 0, seeded()) {
        Ok(m) => {
            lemma_pass2_clean(spec_lines(t), 0, 0, m, 16);
            lemma_clean_lines(t);
            lemma_strip_clean(t);
        },
        Err(_) => {
            assert(false);
        },
    }
}

} // verus!
