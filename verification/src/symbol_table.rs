//! The symbol table: pre-seeded architecture names, label addresses bound
//! by a first pass over the instruction stream, and data-memory addresses
//! handed out lazily to variables during the second pass.

use vstd::prelude::*;
use vstd::slice::slice_to_vec;
use crate::error::{AsmError, ErrView};
use crate::parser::{spec_lines, spec_parse_line, stream_next, Command, CommandView, Parser,
    StreamStep};

verus! {

/// Identifier-to-address bindings, as an association list in insertion
/// order, together with the next free data-memory address.
pub struct SymbolTable {
    pub table: Vec<(Vec<u8>, u16)>,
    pub current_ram: u16,
}

/// The mapping that an association list denotes: a later entry for the
/// same key overrides an earlier one (none ever does here; every insert
/// follows a failed lookup).
pub open spec fn map_of(entries: Seq<(Vec<u8>, u16)>) -> Map<Seq<u8>, u16>
    decreases entries.len(),
{
    if entries.len() == 0 {
        Map::empty()
    } else {
        map_of(entries.drop_last()).insert(entries.last().0@, entries.last().1)
    }
}

/// The architecture-defined names bound before any user program is
/// scanned: pointer registers, the 16 general registers, and the bases of
/// the screen buffer and the keyboard register.
pub open spec fn seeded() -> Map<Seq<u8>, u16> {
    Map::empty().insert(seq!['S' as u8, 'P' as u8], 0u16).insert(
        seq!['L' as u8, 'C' as u8, 'L' as u8],
        1u16,
    ).insert(seq!['A' as u8, 'R' as u8, 'G' as u8], 2u16).insert(
        seq!['T' as u8, 'H' as u8, 'I' as u8, 'S' as u8],
        3u16,
    ).insert(seq!['T' as u8, 'H' as u8, 'A' as u8, 'T' as u8], 4u16).insert(
        seq!['R' as u8, '0' as u8],
        0u16,
    ).insert(seq!['R' as u8, '1' as u8], 1u16).insert(seq!['R' as u8, '2' as u8], 2u16).insert(
        seq!['R' as u8, '3' as u8],
        3u16,
    ).insert(seq!['R' as u8, '4' as u8], 4u16).insert(seq!['R' as u8, '5' as u8], 5u16).insert(
        seq!['R' as u8, '6' as u8],
        6u16,
    ).insert(seq!['R' as u8, '7' as u8], 7u16).insert(seq!['R' as u8, '8' as u8], 8u16).insert(
        seq!['R' as u8, '9' as u8],
        9u16,
    ).insert(seq!['R' as u8, '1' as u8, '0' as u8], 10u16).insert(
        seq!['R' as u8, '1' as u8, '1' as u8],
        11u16,
    ).insert(seq!['R' as u8, '1' as u8, '2' as u8], 12u16).insert(
        seq!['R' as u8, '1' as u8, '3' as u8],
        13u16,
    ).insert(seq!['R' as u8, '1' as u8, '4' as u8], 14u16).insert(
        seq!['R' as u8, '1' as u8, '5' as u8],
        15u16,
    ).insert(seq!['S' as u8, 'C' as u8, 'R' as u8, 'E' as u8, 'E' as u8, 'N' as u8],
        16384u16,
    ).insert(seq!['K' as u8, 'B' as u8, 'D' as u8], 24576u16)
}

/// Resolving one name: a bound name returns its address; a fresh one is
/// bound to the next free data-memory address, which then moves up. At
/// the top of the address space the counter stays put and answers with
/// its last value without binding.
pub open spec fn spec_resolve(m: Map<Seq<u8>, u16>, ram: u16, name: Seq<u8>) -> (
    Map<Seq<u8>, u16>,
    u16,
    u16,
) {
    if m.contains_key(name) {
        (m, ram, m[name])
    } else if ram == 0xFFFFu16 {
        (m, ram, ram)
    } else {
        (m.insert(name, ram), (ram + 1) as u16, ram)
    }
}

/// The first pass: walk the lines, bind every label to the address of the
/// next real instruction, and fail on the first malformed line or on a
/// label name that is already bound.
pub open spec fn spec_first_pass(
    ls: Seq<Seq<u8>>,
    loc: nat,
    addr: u16,
    m: Map<Seq<u8>, u16>,
) -> Result<Map<Seq<u8>, u16>, ErrView>
    decreases ls.len(),
{
    if ls.len() == 0 {
        Ok(m)
    } else if ls[0].len() == 0 {
        spec_first_pass(ls.skip(1), loc + 1, addr, m)
    } else {
        match spec_parse_line(ls[0], loc + 1) {
            Ok(cmd) => match cmd {
                CommandView::L(name) => if m.contains_key(name) {
                    Err(ErrView::DuplicateLabel { name, address: m[name] })
                } else {
                    spec_first_pass(ls.skip(1), loc + 1, addr, m.insert(name, addr))
                },
                _ => if addr == 0xFFFFu16 {
                    Err(ErrView::ProgramTooLarge)
                } else {
                    spec_first_pass(ls.skip(1), loc + 1, (addr + 1) as u16, m)
                },
            },
            Err(e) => Err(e),
        }
    }
}

/// The first pass consumes the stream step by step: its recursion agrees
/// with `stream_next`.
pub proof fn lemma_first_pass_step(ls: Seq<Seq<u8>>, loc: nat, addr: u16, m: Map<Seq<u8>, u16>)
    ensures
        spec_first_pass(ls, loc, addr, m) == (match stream_next(ls, loc, addr) {
            StreamStep::Done => Ok::<Map<Seq<u8>, u16>, ErrView>(m),
            StreamStep::Item { line, rest, loc: loc2, addr: addr2 } => match line.command {
                CommandView::L(name) => if m.contains_key(name) {
                    Err(ErrView::DuplicateLabel { name, address: m[name] })
                } else {
                    spec_first_pass(rest, loc2, addr2, m.insert(name, line.address))
                },
                _ => spec_first_pass(rest, loc2, addr2, m),
            },
            StreamStep::Fail { err } => Err(err),
        }),
    decreases ls.len(),
{
    if ls.len() == 0 {
    } else if ls[0].len() == 0 {
        lemma_first_pass_step(ls.skip(1), loc + 1, addr, m);
    }
}

fn bytes_eq(a: &[u8], b: &[u8]) -> (r: bool)
    ensures
        r == (a@ == b@),
{
    if a.len() != b.len() {
        return false;
    }
    let n = a.len();
    let mut i: usize = 0;
    while i < n
        invariant
            i <= n,
            n == a@.len() == b@.len(),
            forall|j: int| 0 <= j < i ==> a@[j] == b@[j],
        decreases n - i,
    {
        if a[i] != b[i] {
            return false;
        }
        i += 1;
    }
    proof {
        assert(a@ =~= b@);
    }
    true
}

/// The bound address of `k`, if any: the scan runs from the newest entry
/// back, so that it answers as the denoted mapping does.
fn lookup(t: &Vec<(Vec<u8>, u16)>, k: &[u8]) -> (r: Option<u16>)
    ensures
        (match r {
            Some(v) => map_of(t@).contains_key(k@) && map_of(t@)[k@] == v,
            None => !map_of(t@).contains_key(k@),
        }),
{
    let mut i: usize = t.len();
    proof {
        assert(t@.take(t@.len() as int) =~= t@);
    }
    while i > 0
        invariant
            i <= t@.len(),
            map_of(t@).contains_key(k@) == map_of(t@.take(i as int)).contains_key(k@),
            map_of(t@).contains_key(k@) ==> map_of(t@)[k@] == map_of(t@.take(i as int))[k@],
        decreases i,
    {
        i -= 1;
        proof {
            assert(t@.take(i + 1).drop_last() =~= t@.take(i as int));
            assert(t@.take(i + 1).last() == t@[i as int]);
        }
        if bytes_eq(t[i].0.as_slice(), k) {
            return Some(t[i].1);
        }
    }
    None
}

/// Append one binding; every caller has just seen `lookup` miss, so the
/// denoted mapping simply gains the key.
fn insert_entry(t: &mut Vec<(Vec<u8>, u16)>, k: Vec<u8>, v: u16)
    ensures
        map_of(final(t)@) == map_of(old(t)@).insert(k@, v),
{
    t.push((k, v));
    proof {
        assert(t@.drop_last() =~= old(t)@);
    }
}

fn mk_key2(a: u8, b: u8) -> (r: Vec<u8>)
    ensures
        r@ == seq![a, b],
{
    let mut v: Vec<u8> = Vec::new();
    v.push(a);
    v.push(b);
    proof {
        assert(v@ =~= seq![a, b]);
    }
    v
}

fn mk_key3(a: u8, b: u8, c: u8) -> (r: Vec<u8>)
    ensures
        r@ == seq![a, b, c],
{
    let mut v = mk_key2(a, b);
    v.push(c);
    proof {
        assert(v@ =~= seq![a, b, c]);
    }
    v
}

fn mk_key4(a: u8, b: u8, c: u8, d: u8) -> (r: Vec<u8>)
    ensures
        r@ == seq![a, b, c, d],
{
    let mut v = mk_key3(a, b, c);
    v.push(d);
    proof {
        assert(v@ =~= seq![a, b, c, d]);
    }
    v
}

fn mk_key6(a: u8, b: u8, c: u8, d: u8, e: u8, f: u8) -> (r: Vec<u8>)
    ensures
        r@ == seq![a, b, c, d, e, f],
{
    let mut v = mk_key4(a, b, c, d);
    v.push(e);
    v.push(f);
    proof {
        assert(v@ =~= seq![a, b, c, d, e, f]);
    }
    v
}

fn seed_table() -> (t: Vec<(Vec<u8>, u16)>)
    ensures
        map_of(t@) == seeded(),
{
    let mut t: Vec<(Vec<u8>, u16)> = Vec::new();
    insert_entry(&mut t, mk_key2('S' as u8, 'P' as u8), 0);
    insert_entry(&mut t, mk_key3('L' as u8, 'C' as u8, 'L' as u8), 1);
    insert_entry(&mut t, mk_key3('A' as u8, 'R' as u8, 'G' as u8), 2);
    insert_entry(&mut t, mk_key4('T' as u8, 'H' as u8, 'I' as u8, 'S' as u8), 3);
    insert_entry(&mut t, mk_key4('T' as u8, 'H' as u8, 'A' as u8, 'T' as u8), 4);
    insert_entry(&mut t, mk_key2('R' as u8, '0' as u8), 0);
    insert_entry(&mut t, mk_key2('R' as u8, '1' as u8), 1);
    insert_entry(&mut t, mk_key2('R' as u8, '2' as u8), 2);
    insert_entry(&mut t, mk_key2('R' as u8, '3' as u8), 3);
    insert_entry(&mut t, mk_key2('R' as u8, '4' as u8), 4);
    insert_entry(&mut t, mk_key2('R' as u8, '5' as u8), 5);
    insert_entry(&mut t, mk_key2('R' as u8, '6' as u8), 6);
    insert_entry(&mut t, mk_key2('R' as u8, '7' as u8), 7);
    insert_entry(&mut t, mk_key2('R' as u8, '8' as u8), 8);
    insert_entry(&mut t, mk_key2('R' as u8, '9' as u8), 9);
    insert_entry(&mut t, mk_key3('R' as u8, '1' as u8, '0' as u8), 10);
    insert_entry(&mut t, mk_key3('R' as u8, '1' as u8, '1' as u8), 11);
    insert_entry(&mut t, mk_key3('R' as u8, '1' as u8, '2' as u8), 12);
    insert_entry(&mut t, mk_key3('R' as u8, '1' as u8, '3' as u8), 13);
    insert_entry(&mut t, mk_key3('R' as u8, '1' as u8, '4' as u8), 14);
    insert_entry(&mut t, mk_key3('R' as u8, '1' as u8, '5' as u8), 15);
    insert_entry(
        &mut t,
        mk_key6('S' as u8, 'C' as u8, 'R' as u8, 'E' as u8, 'E' as u8, 'N' as u8),
        16384,
    );
    insert_entry(&mut t, mk_key3('K' as u8, 'B' as u8, 'D' as u8), 24576);
    t
}

impl SymbolTable {
    /// The mapping this table denotes.
    pub open spec fn map_view(&self) -> Map<Seq<u8>, u16> {
        map_of(self.table@)
    }

    /// Build the table from the pre-seeded names and a full first pass
    /// over the cleaned text, binding each label to the address of the
    /// next real instruction. The first stream error, or a label name
    /// already bound, aborts construction.
    pub fn new(parser: &Parser) -> (r: Result<SymbolTable, AsmError>)
        ensures
            (match spec_first_pass(spec_lines(parser.text@), 0, 0, seeded()) {
                Ok(m) => r matches Ok(t) && t.map_view() == m && t.current_ram == 16,
                Err(e) => r matches Err(x) && x@ == e,
            }),
    {
        let mut table = seed_table();
        let mut it = parser.iter();
        loop
            invariant
                it.wf(),
                !it.failed,
                spec_first_pass(spec_lines(parser.text@), 0, 0, seeded()) == spec_first_pass(
                    it.rest(),
                    it.current_loc as nat,
                    it.current_address,
                    map_of(table@),
                ),
            decreases it.rest().len(),
        {
            proof {
                lemma_first_pass_step(
                    it.rest(),
                    it.current_loc as nat,
                    it.current_address,
                    map_of(table@),
                );
            }
            match it.next() {
                None => {
                    return Ok(SymbolTable { table, current_ram: 16 });
                },
                Some(Ok(al)) => {
                    match al.command {
                        Command::L(name) => {
                            match lookup(&table, name.as_slice()) {
                                Some(bound) => {
                                    return Err(
                                        AsmError::DuplicateLabel { name, address: bound },
                                    );
                                },
                                None => {
                                    insert_entry(&mut table, name, al.address);
                                },
                            }
                        },
                        _ => {},
                    }
                },
                Some(Err(e)) => {
                    return Err(e);
                },
            }
        }
    }

    /// Resolve a name during the second pass; a fresh name is bound to
    /// the next free data-memory address. Never fails.
    pub fn get_address(&mut self, sym: &[u8]) -> (addr: u16)
        ensures
            ({
                let (m2, ram2, a) = spec_resolve(
                    old(self).map_view(),
                    old(self).current_ram,
                    sym@,
                );
                final(self).map_view() == m2 && final(self).current_ram == ram2 && addr == a
            }),
    {
        match lookup(&self.table, sym) {
            Some(v) => v,
            None => {
                if self.current_ram == 0xFFFFu16 {
                    return self.current_ram;
                }
                let a = self.current_ram;
                insert_entry(&mut self.table, slice_to_vec(sym), a);
                self.current_ram = self.current_ram + 1;
                a
            },
        }
    }
}

} // verus!
