//! A two-pass assembler for a 16-bit computer architecture: it turns
//! line-oriented symbolic assembly text into fixed-width binary machine
//! words, rendered as lines of sixteen ASCII binary digits.
#![verifier::loop_isolation(false)]

pub mod error;
pub mod laws;
pub mod parser;
pub mod symbol_table;

use vstd::prelude::*;
use vstd::string::{StringExecFns, StringSliceAdditionalSpecFns};
use crate::error::{AsmError, ErrView};
use crate::parser::{spec_lines, spec_parse_line, spec_strip, stream_next, ACommand, ACommandView,
    Command, CommandView, Parser, StreamStep};
use crate::symbol_table::{seeded, spec_first_pass, spec_resolve, SymbolTable};

verus! {

// ---------------------------------------------------------------------------
// Rendering encoded words as lines of binary digits
// ---------------------------------------------------------------------------

pub open spec fn two_pow(n: nat) -> nat
    decreases n,
{
    if n == 0 {
        1
    } else {
        2 * two_pow((n - 1) as nat)
    }
}

pub proof fn lemma_two_pow_pos(n: nat)
    ensures
        two_pow(n) >= 1,
    decreases n,
{
    if n > 0 {
        lemma_two_pow_pos((n - 1) as nat);
    }
}

/// The sixteen binary digits of a machine word, most significant first.
pub open spec fn word_bits(w: u16) -> Seq<char> {
    Seq::new(
        16,
        |i: int|
            if (w as nat / two_pow((15 - i) as nat)) % 2 == 1 {
                '1'
            } else {
                '0'
            },
    )
}

/// The output text: each word's sixteen digits followed by one newline,
/// in address order, with no trailing blank line.
pub open spec fn spec_render(words: Seq<u16>) -> Seq<char>
    decreases words.len(),
{
    if words.len() == 0 {
        seq![]
    } else {
        spec_render(words.drop_last()) + word_bits(words.last()) + seq!['\n']
    }
}

/// Append one rendered word and its newline to the output.
fn append_word(out: &mut String, w: u16)
    ensures
        final(out)@ == old(out)@ + word_bits(w) + seq!['\n'],
{
    let ghost base = out@;
    proof {
        reveal_strlit("0");
        reveal_strlit("1");
        reveal_strlit("\n");
        assert(two_pow(15) == 32768) by {
            reveal_with_fuel(two_pow, 17);
        }
        assert(base + word_bits(w).take(0) =~= base);
    }
    let mut p: u16 = 32768;
    let mut i: usize = 0;
    while i < 16
        invariant
            i <= 16,
            p >= 1,
            i < 16 ==> p as nat == two_pow((15 - i) as nat),
            out@ == base + word_bits(w).take(i as int),
        decreases 16 - i,
    {
        let d = (w / p) % 2;
        if d == 1 {
            out.append("1");
        } else {
            out.append("0");
        }
        proof {
            assert(word_bits(w)[i as int] == (if (w as nat / two_pow((15 - i) as nat)) % 2 == 1 {
                '1'
            } else {
                '0'
            }));
            assert(word_bits(w).take(i + 1) =~= word_bits(w).take(i as int).push(
                word_bits(w)[i as int],
            ));
            assert(out@ =~= base + word_bits(w).take(i + 1));
        }
        i += 1;
        if i < 16 {
            proof {
                lemma_two_pow_pos((15 - i) as nat);
                assert(two_pow((15 - (i - 1)) as nat) == 2 * two_pow((15 - i) as nat));
            }
            p = p / 2;
        }
    }
    out.append("\n");
    proof {
        assert(word_bits(w).take(16) =~= word_bits(w));
        assert(out@ =~= base + word_bits(w) + seq!['\n']);
    }
}

// ---------------------------------------------------------------------------
// The second pass
// ---------------------------------------------------------------------------

/// Prepend one emitted word to the rest of the second pass's output.
pub open spec fn ok_cons(w: u16, rest: Result<Seq<u16>, ErrView>) -> Result<Seq<u16>, ErrView> {
    match rest {
        Ok(ws) => Ok(seq![w] + ws),
        Err(e) => Err(e),
    }
}

/// The second pass: walk the lines again, emit the word of every real
/// instruction (resolving symbolic references as they come), emit nothing
/// for labels, and fail on the first stream error.
pub open spec fn spec_second_pass(
    ls: Seq<Seq<u8>>,
    loc: nat,
    addr: u16,
    m: Map<Seq<u8>, u16>,
    ram: u16,
) -> Result<Seq<u16>, ErrView>
    decreases ls.len(),
{
    if ls.len() == 0 {
        Ok(seq![])
    } else if ls[0].len() == 0 {
        spec_second_pass(ls.skip(1), loc + 1, addr, m, ram)
    } else {
        match spec_parse_line(ls[0], loc + 1) {
            Ok(cmd) => match cmd {
                CommandView::L(_) => spec_second_pass(ls.skip(1), loc + 1, addr, m, ram),
                _ => if addr == 0xFFFFu16 {
                    Err(ErrView::ProgramTooLarge)
                } else {
                    match cmd {
                        CommandView::A(ACommandView::Constant(k)) => ok_cons(
                            k,
                            spec_second_pass(ls.skip(1), loc + 1, (addr + 1) as u16, m, ram),
                        ),
                        CommandView::A(ACommandView::Symbol(s)) => {
                            let (m2, ram2, a) = spec_resolve(m, ram, s);
                            ok_cons(
                                a,
                                spec_second_pass(
                                    ls.skip(1),
                                    loc + 1,
                                    (addr + 1) as u16,
                                    m2,
                                    ram2,
                                ),
                            )
                        },
                        CommandView::C(w) => ok_cons(
                            w,
                            spec_second_pass(ls.skip(1), loc + 1, (addr + 1) as u16, m, ram),
                        ),
                        CommandView::L(_) => Ok(seq![]),
                    }
                },
            },
            Err(e) => Err(e),
        }
    }
}

/// The second pass consumes the stream step by step: its recursion agrees
/// with `stream_next`.
pub proof fn lemma_second_pass_step(
    ls: Seq<Seq<u8>>,
    loc: nat,
    addr: u16,
    m: Map<Seq<u8>, u16>,
    ram: u16,
)
    ensures
        spec_second_pass(ls, loc, addr, m, ram) == (match stream_next(ls, loc, addr) {
            StreamStep::Done => Ok::<Seq<u16>, ErrView>(seq![]),
            StreamStep::Item { line, rest, loc: loc2, addr: addr2 } => match line.command {
                CommandView::L(_) => spec_second_pass(rest, loc2, addr2, m, ram),
                CommandView::A(ACommandView::Constant(k)) => ok_cons(
                    k,
                    spec_second_pass(rest, loc2, addr2, m, ram),
                ),
                CommandView::A(ACommandView::Symbol(s)) => {
                    let (m2, ram2, a) = spec_resolve(m, ram, s);
                    ok_cons(a, spec_second_pass(rest, loc2, addr2, m2, ram2))
                },
                CommandView::C(w) => ok_cons(w, spec_second_pass(rest, loc2, addr2, m, ram)),
            },
            StreamStep::Fail { err } => Err(err),
        }),
    decreases ls.len(),
{
    if ls.len() == 0 {
    } else if ls[0].len() == 0 {
        lemma_second_pass_step(ls.skip(1), loc + 1, addr, m, ram);
    }
}

// ---------------------------------------------------------------------------
// Orchestration
// ---------------------------------------------------------------------------

/// What assembling an already-cleaned buffer yields: the emitted words in
/// address order, or the first error of either pass.
pub open spec fn spec_assemble_clean(clean: Seq<u8>) -> Result<Seq<u16>, ErrView> {
    let ls = spec_lines(clean);
    match spec_first_pass(ls, 0, 0, seeded()) {
        Err(e) => Err(e),
        Ok(m) => spec_second_pass(ls, 0, 0, m, 16),
    }
}

/// What assembling raw source text yields.
pub open spec fn spec_assemble(input: Seq<u8>) -> Result<Seq<u16>, ErrView> {
    spec_assemble_clean(spec_strip(input))
}

/// Drive both passes over the cleaned text and concatenate the rendered
/// words; the first error aborts with nothing emitted.
pub fn assemble(parser: &Parser) -> (r: Result<String, AsmError>)
    ensures
        (match spec_assemble_clean(parser.text@) {
            Ok(ws) => r matches Ok(out) && out@ == spec_render(ws),
            Err(e) => r matches Err(x) && x@ == e,
        }),
{
    let mut result = String::new();
    let mut table = match SymbolTable::new(parser) {
        Ok(t) => t,
        Err(e) => return Err(e),
    };
    let mut it = parser.iter();
    let ghost mut gwords: Seq<u16> = seq![];
    proof {
        match spec_second_pass(spec_lines(parser.text@), 0, 0, table.map_view(), 16) {
            Ok(ws) => {
                assert(gwords + ws =~= ws);
            },
            Err(_) => {},
        }
    }
    loop
        invariant
            it.wf(),
            !it.failed,
            result@ == spec_render(gwords),
            (match spec_second_pass(
                it.rest(),
                it.current_loc as nat,
                it.current_address,
                table.map_view(),
                table.current_ram,
            ) {
                Ok(ws) => spec_assemble_clean(parser.text@) == Ok::<Seq<u16>, ErrView>(
                    gwords + ws,
                ),
                Err(e) => spec_assemble_clean(parser.text@) == Err::<Seq<u16>, ErrView>(e),
            }),
        decreases it.rest().len(),
    {
        proof {
            lemma_second_pass_step(
                it.rest(),
                it.current_loc as nat,
                it.current_address,
                table.map_view(),
                table.current_ram,
            );
        }
        match it.next() {
            None => {
                proof {
                    assert(gwords + Seq::<u16>::empty() =~= gwords);
                }
                return Ok(result);
            },
            Some(Ok(al)) => {
                match al.command {
                    Command::A(ACommand::Constant(num)) => {
                        append_word(&mut result, num);
                        proof {
                            match spec_second_pass(
                                it.rest(),
                                it.current_loc as nat,
                                it.current_address,
                                table.map_view(),
                                table.current_ram,
                            ) {
                                Ok(ws) => {
                                    assert(gwords + (seq![num] + ws) =~= gwords.push(num) + ws);
                                },
                                Err(_) => {},
                            }
                            assert(spec_render(gwords.push(num)) == spec_render(gwords)
                                + word_bits(num) + seq!['\n']) by {
                                assert(gwords.push(num).drop_last() =~= gwords);
                            }
                            gwords = gwords.push(num);
                        }
                    },
                    Command::A(ACommand::Symbol(sym)) => {
                        let a = table.get_address(sym.as_slice());
                        append_word(&mut result, a);
                        proof {
                            match spec_second_pass(
                                it.rest(),
                                it.current_loc as nat,
                                it.current_address,
                                table.map_view(),
                                table.current_ram,
                            ) {
                                Ok(ws) => {
                                    assert(gwords + (seq![a] + ws) =~= gwords.push(a) + ws);
                                },
                                Err(_) => {},
                            }
                            assert(spec_render(gwords.push(a)) == spec_render(gwords)
                                + word_bits(a) + seq!['\n']) by {
                                assert(gwords.push(a).drop_last() =~= gwords);
                            }
                            gwords = gwords.push(a);
                        }
                    },
                    Command::C(code) => {
                        append_word(&mut result, code);
                        proof {
                            match spec_second_pass(
                                it.rest(),
                                it.current_loc as nat,
                                it.current_address,
                                table.map_view(),
                                table.current_ram,
                            ) {
                                Ok(ws) => {
                                    assert(gwords + (seq![code] + ws) =~= gwords.push(code) + ws);
                                },
                                Err(_) => {},
                            }
                            assert(spec_render(gwords.push(code)) == spec_render(gwords)
                                + word_bits(code) + seq!['\n']) by {
                                assert(gwords.push(code).drop_last() =~= gwords);
                            }
                            gwords = gwords.push(code);
                        }
                    },
                    Command::L(_) => {},
                }
            },
            Some(Err(e)) => {
                return Err(e);
            },
        }
    }
}

/// Assemble raw source text: preprocess once, run both passes, and return
/// the complete output text or the first error.
pub fn assemble_string(text: &str) -> (r: Result<String, AsmError>)
    ensures
        (match spec_assemble(text.spec_bytes()) {
            Ok(ws) => r matches Ok(out) && out@ == spec_render(ws),
            Err(e) => r matches Err(x) && x@ == e,
        }),
{
    let parser = Parser::from_string(text);
    assemble(&parser)
}

} // verus!
