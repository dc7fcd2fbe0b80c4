use vstd::prelude::*;

use crate::decode::{decoded, type_of, words_needed, RegisterValue};
use crate::names::NameMap;
use crate::planner::{is_plan, lemma_planned_is_input, plan_read_ranges, Member, ReadRange};
use crate::register::{catalog_ok, DataType, Register};

verus! {

/// What kind of input/output failure the link to the device reported.
#[derive(Clone, Copy, PartialEq, Eq, Structural, Debug)]
pub enum IoErrorKind {
    BrokenPipe,
    ConnectionReset,
    Other,
}

/// A failed read.
#[derive(Clone, Copy, PartialEq, Eq, Structural, Debug)]
pub enum ModbusError {
    /// The device answered with a protocol exception; its code.
    Exception(u8),
    /// The link to the device failed.
    IOerror(IoErrorKind),
    /// The answer did not follow the protocol.
    Protocol,
}

/// The failure means the connection to the device is gone.
pub open spec fn connection_lost(e: ModbusError) -> bool {
    e == ModbusError::IOerror(IoErrorKind::BrokenPipe) || e == ModbusError::IOerror(
        IoErrorKind::ConnectionReset,
    )
}

impl ModbusError {
    /// Whether the failure means the connection to the device is gone, so
    /// that only reconnecting can help.
    pub fn is_connection_lost(&self) -> (r: bool)
        ensures
            r == connection_lost(*self),
    {
        match self {
            ModbusError::IOerror(IoErrorKind::BrokenPipe) => true,
            ModbusError::IOerror(IoErrorKind::ConnectionReset) => true,
            _ => false,
        }
    }
}

/// A link to a device that can read its input registers.
pub trait ModbusConnexion {
    /// Reads `nb` input registers starting at address `addr`.
    fn read_raw_input_registers(&mut self, addr: u16, nb: u16) -> Result<Vec<u16>, ModbusError>;
}

/// What the words decode to as type `t`, if their number fits the type.
pub open spec fn decode_spec(w: Seq<u16>, t: DataType) -> Option<RegisterValue> {
    if w.len() == words_needed(t) && exists|v: RegisterValue| decoded(w, t, v) {
        Some(choose|v: RegisterValue| decoded(w, t, v))
    } else {
        None
    }
}

proof fn lemma_decode_spec(w: Seq<u16>, t: DataType, v: RegisterValue)
    requires
        w.len() == words_needed(t),
        decoded(w, t, v),
    ensures
        decode_spec(w, t) == Some(v),
{
    broadcast use vstd::array::group_array_axioms;

    let u = choose|u: RegisterValue| decoded(w, t, u);
    assert(decoded(w, t, u));
    match (u, v) {
        (RegisterValue::Sized(a), RegisterValue::Sized(b)) => {
            assert(a@ == b@);
            assert forall|i: int| 0 <= i < 66 implies a[i] == b[i] by {
                assert(a@[i] == b@[i]);
            }
            assert(a =~= b);
        },
        _ => {},
    }
}

/// The words of a member, when the buffer read for its range holds them all.
pub open spec fn member_words(m: Member, words: Seq<u16>) -> Option<Seq<u16>> {
    if m.offset + m.register.len <= words.len() {
        Some(words.subrange(m.offset as int, m.offset + m.register.len))
    } else {
        None
    }
}

/// What a member's words decode to, if they are there and decode.
pub open spec fn member_value(m: Member, words: Seq<u16>) -> Option<RegisterValue> {
    match member_words(m, words) {
        Some(w) => decode_spec(w, m.register.data_type),
        None => None,
    }
}

/// `acc` with the value of each member of `ms` that decodes from `words`,
/// filed under the member's name; members that do not decode are left out.
pub open spec fn with_range(
    acc: Map<Seq<char>, RegisterValue>,
    ms: Seq<Member>,
    words: Seq<u16>,
) -> Map<Seq<char>, RegisterValue>
    decreases ms.len(),
{
    if ms.len() == 0 {
        acc
    } else {
        let before = with_range(acc, ms.drop_last(), words);
        match member_value(ms.last(), words) {
            Some(v) => before.insert(ms.last().register.name@, v),
            None => before,
        }
    }
}

/// Some register of `regs` has the name `k` and the type of `v`.
pub open spec fn named_in(regs: Seq<Register>, k: Seq<char>, v: RegisterValue) -> bool {
    exists|i: int| 0 <= i < regs.len() && regs[i].name@ == k && regs[i].data_type == type_of(v)
}

proof fn lemma_decode_spec_type(w: Seq<u16>, t: DataType)
    requires
        decode_spec(w, t) is Some,
    ensures
        type_of(decode_spec(w, t)->Some_0) == t,
{
}

proof fn lemma_with_range_keys(
    acc: Map<Seq<char>, RegisterValue>,
    ms: Seq<Member>,
    words: Seq<u16>,
    k: Seq<char>,
)
    requires
        with_range(acc, ms, words).contains_key(k),
    ensures
        ({
            let v = with_range(acc, ms, words)[k];
            (acc.contains_key(k) && v == acc[k]) || exists|i: int|
                0 <= i < ms.len() && ms[i].register.name@ == k && ms[i].register.data_type
                    == type_of(v)
        }),
    decreases ms.len(),
{
    if ms.len() > 0 {
        let p = ms.drop_last();
        let last = ms.last();
        let v = with_range(acc, ms, words)[k];
        match member_value(last, words) {
            Some(x) => {
                let w = member_words(last, words)->Some_0;
                lemma_decode_spec_type(w, last.register.data_type);
            },
            None => {},
        }
        if member_value(last, words) is Some && last.register.name@ == k {
            assert(ms[ms.len() - 1] == last);
        } else {
            lemma_with_range_keys(acc, p, words, k);
            if !(acc.contains_key(k) && v == acc[k]) {
                let i = choose|i: int|
                    0 <= i < p.len() && p[i].register.name@ == k && p[i].register.data_type
                        == type_of(v);
                assert(ms[i] == p[i]);
            }
        }
    }
}

/// Adds to `result` the value of each member of the range, decoded from its
/// slice of `words`, the words read for the range. A member whose words are
/// not all there, or do not decode, is left out.
pub fn collect_range(result: &mut NameMap<RegisterValue>, range: &ReadRange, words: &Vec<u16>)
    requires
        old(result).wf(),
    ensures
        final(result).wf(),
        final(result)@ == with_range(old(result)@, range.members@, words@),
{
    let ghost start = result@;
    let mut k: usize = 0;
    while k < range.members.len()
        invariant
            0 <= k <= range.members@.len(),
            result.wf(),
            result@ == with_range(start, range.members@.subrange(0, k as int), words@),
        decreases range.members@.len() - k,
    {
        let m = &range.members[k];
        let ghost done = range.members@.subrange(0, k + 1);
        assert(done.drop_last() =~= range.members@.subrange(0, k as int));
        assert(done.last() == *m);
        let off = m.offset as usize;
        let end = off + m.register.len as usize;
        if end <= words.len() {
            let slice = &words.as_slice()[off..end];
            match RegisterValue::decode(slice, m.register.data_type) {
                Ok(v) => {
                    proof {
                        lemma_decode_spec(slice@, m.register.data_type, v);
                    }
                    result.insert(m.register.name.clone(), v);
                },
                Err(_) => {},
            }
        }
        k = k + 1;
    }
    assert(range.members@.subrange(0, k as int) =~= range.members@);
}

/// Reads the registers: plans the read ranges, reads each range in order and
/// decodes each register from its slice. Registers that do not decode are
/// left out, as are ranges too long for a single request; a failed read ends
/// the call with its error.
pub fn read_input_registers<C: ModbusConnexion>(conn: &mut C, regs: Vec<Register>) -> (r: Result<
    NameMap<RegisterValue>,
    ModbusError,
>)
    ensures
        r matches Ok(m) ==> m.wf() && forall|k: Seq<char>| #[trigger]
            m@.contains_key(k) ==> named_in(regs@, k, m@[k]),
        regs@.len() == 0 ==> (r matches Ok(m) && m@ == Map::<Seq<char>, RegisterValue>::empty()),
{
    let ghost input = regs@;
    let ranges = plan_read_ranges(regs);
    let mut result: NameMap<RegisterValue> = NameMap::new();
    let mut j: usize = 0;
    while j < ranges.len()
        invariant
            is_plan(ranges@, input),
            input == regs@,
            input.len() == 0 <==> ranges@.len() == 0,
            input.len() == 0 ==> result@ == Map::<Seq<char>, RegisterValue>::empty(),
            0 <= j <= ranges@.len(),
            result.wf(),
            forall|k: Seq<char>| #[trigger] result@.contains_key(k) ==> named_in(input, k, result@[k]),
        decreases ranges@.len() - j,
    {
        let range = &ranges[j];
        if range.word_count <= 0xFFFF {
            match conn.read_raw_input_registers(range.start_address, range.word_count as u16) {
                Ok(words) => {
                    let ghost before = result@;
                    collect_range(&mut result, range, &words);
                    proof {
                        assert forall|k: Seq<char>| #[trigger] result@.contains_key(k) implies named_in(
                            input,
                            k,
                            result@[k],
                        ) by {
                            lemma_with_range_keys(before, range.members@, words@, k);
                            let v = result@[k];
                            if !(before.contains_key(k) && v == before[k]) {
                                let i = choose|i: int|
                                    0 <= i < range.members@.len() && range.members@[i].register.name@
                                        == k && range.members@[i].register.data_type == type_of(v);
                                lemma_planned_is_input(input, ranges@, j as int, i);
                                let a = choose|a: int|
                                    0 <= a < input.len() && input[a] == range.members@[i].register;
                                assert(input[a].name@ == k);
                            }
                        }
                    }
                },
                Err(e) => {
                    return Err(e);
                },
            }
        }
        j = j + 1;
    }
    Ok(result)
}

/// The registers the catalog holds for the names, in the order of the names;
/// names the catalog does not know are passed over.
pub open spec fn lookup_spec(catalog: Map<Seq<char>, Register>, names: Seq<String>) -> Seq<Register>
    decreases names.len(),
{
    if names.len() == 0 {
        Seq::empty()
    } else {
        let before = lookup_spec(catalog, names.drop_last());
        if catalog.contains_key(names.last()@) {
            before.push(catalog[names.last()@])
        } else {
            before
        }
    }
}

/// Every register the lookup gives is the catalog's register for its own
/// name, a name asked for.
proof fn lemma_lookup_names(catalog: NameMap<Register>, names: Seq<String>, i: int)
    requires
        catalog_ok(catalog),
        0 <= i < lookup_spec(catalog@, names).len(),
    ensures
        ({
            let r = lookup_spec(catalog@, names)[i];
            &&& catalog@.contains_key(r.name@)
            &&& r == catalog@[r.name@]
            &&& exists|j: int| 0 <= j < names.len() && names[j]@ == r.name@
        }),
    decreases names.len(),
{
    let s = lookup_spec(catalog@, names);
    let p = names.drop_last();
    let sp = lookup_spec(catalog@, p);
    let k = s[i].name@;
    if i < sp.len() {
        assert(s[i] == sp[i]);
        lemma_lookup_names(catalog, p, i);
        let j = choose|j: int| 0 <= j < p.len() && p[j]@ == k;
        assert(names[j] == p[j]);
    } else {
        let x = names.last()@;
        assert(s[i] == catalog@[x]);
        assert(catalog@[x].name@ == x);
        assert(names[names.len() - 1]@ == k);
    }
}

proof fn lemma_lookup_unknown(catalog: Map<Seq<char>, Register>, names: Seq<String>)
    requires
        forall|i: int| 0 <= i < names.len() ==> !catalog.contains_key(#[trigger] names[i]@),
    ensures
        lookup_spec(catalog, names).len() == 0,
    decreases names.len(),
{
    if names.len() > 0 {
        let p = names.drop_last();
        assert forall|i: int| 0 <= i < p.len() implies !catalog.contains_key(#[trigger] p[i]@) by {
            assert(p[i] == names[i]);
        }
        lemma_lookup_unknown(catalog, p);
        assert(!catalog.contains_key(names[names.len() - 1]@));
    }
}

/// The registers of one device, keyed by name.
pub struct Electrolyzer {
    pub input_registers: NameMap<Register>,
}

impl Electrolyzer {
    /// The catalog's registers for the names, in the order of the names.
    /// Names the catalog does not know are passed over.
    pub fn lookup(&self, names: &Vec<String>) -> (r: Vec<Register>)
        requires
            self.input_registers.wf(),
        ensures
            r@ == lookup_spec(self.input_registers@, names@),
    {
        let mut r: Vec<Register> = Vec::new();
        let mut i: usize = 0;
        while i < names.len()
            invariant
                0 <= i <= names@.len(),
                self.input_registers.wf(),
                r@ == lookup_spec(self.input_registers@, names@.subrange(0, i as int)),
            decreases names@.len() - i,
        {
            assert(names@.subrange(0, i + 1).drop_last() =~= names@.subrange(0, i as int));
            match self.input_registers.get(&names[i]) {
                Some(reg) => r.push(reg.duplicate()),
                None => {},
            }
            i = i + 1;
        }
        assert(names@.subrange(0, i as int) =~= names@);
        r
    }

    /// Reads the registers of the given names. Names the catalog does not know
    /// are passed over, and never appear in the result; if no name is known,
    /// nothing is read and the result is empty.
    pub fn read_input_registers_by_name<C: ModbusConnexion>(
        &self,
        conn: &mut C,
        names: Vec<String>,
    ) -> (r: Result<NameMap<RegisterValue>, ModbusError>)
        requires
            catalog_ok(self.input_registers),
        ensures
            r matches Ok(m) ==> m.wf() && forall|k: Seq<char>| #[trigger]
                m@.contains_key(k) ==> self.input_registers@.contains_key(k) && type_of(m@[k])
                    == self.input_registers@[k].data_type && exists|i: int|
                    0 <= i < names@.len() && names@[i]@ == k,
            (forall|i: int|
                0 <= i < names@.len() ==> !self.input_registers@.contains_key(#[trigger] names@[i]@))
                ==> (r matches Ok(m) && m@ == Map::<Seq<char>, RegisterValue>::empty()),
    {
        let regs = self.lookup(&names);
        let ghost looked = regs@;
        proof {
            if forall|i: int|
                0 <= i < names@.len() ==> !self.input_registers@.contains_key(
                    #[trigger] names@[i]@,
                ) {
                lemma_lookup_unknown(self.input_registers@, names@);
            }
        }
        let r = read_input_registers(conn, regs);
        proof {
            if r is Ok {
                let m = r->Ok_0;
                assert forall|k: Seq<char>| #[trigger] m@.contains_key(k) implies self.input_registers@.contains_key(
                    k,
                ) && type_of(m@[k]) == self.input_registers@[k].data_type && exists|i: int|
                    0 <= i < names@.len() && names@[i]@ == k by {
                    let i = choose|i: int|
                        0 <= i < looked.len() && looked[i].name@ == k && looked[i].data_type
                            == type_of(m@[k]);
                    lemma_lookup_names(self.input_registers, names@, i);
                }
            }
        }
        r
    }

    /// Reads every register of the catalog.
    pub fn dump_input_registers<C: ModbusConnexion>(&self, conn: &mut C) -> (r: Result<
        NameMap<RegisterValue>,
        ModbusError,
    >)
        requires
            catalog_ok(self.input_registers),
        ensures
            r matches Ok(m) ==> m.wf() && forall|k: Seq<char>| #[trigger]
                m@.contains_key(k) ==> self.input_registers@.contains_key(k) && type_of(m@[k])
                    == self.input_registers@[k].data_type,
            self.input_registers@.dom().len() == 0 ==> (r matches Ok(m) && m@ == Map::<
                Seq<char>,
                RegisterValue,
            >::empty()),
    {
        let names = self.input_registers.names();
        proof {
            if self.input_registers@.dom().len() == 0 {
                assert(names@.len() == 0);
            }
        }
        self.read_input_registers_by_name(conn, names)
    }
}

} // verus!
