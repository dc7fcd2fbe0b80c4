use vstd::prelude::*;

use crate::register::{end_of, Register};
use crate::MODBUS_MAX_READ_LEN;

verus! {

/// A register placed in a read range, `offset` words after the range's start.
#[derive(Debug)]
pub struct Member {
    pub register: Register,
    pub offset: u16,
}

/// One contiguous span of words fetched by a single read request.
#[derive(Debug)]
pub struct ReadRange {
    pub start_address: u16,
    pub word_count: u32,
    pub members: Vec<Member>,
}

/// `x` placed after every element of `s` whose address is not above its own.
pub open spec fn insert_by_addr(s: Seq<Register>, x: Register) -> Seq<Register>
    decreases s.len(),
{
    if s.len() == 0 {
        seq![x]
    } else if s.last().addr <= x.addr {
        s.push(x)
    } else {
        insert_by_addr(s.drop_last(), x).push(s.last())
    }
}

/// The registers ordered by address; registers with equal addresses keep their order.
pub open spec fn sort_by_addr(s: Seq<Register>) -> Seq<Register>
    decreases s.len(),
{
    if s.len() == 0 {
        Seq::empty()
    } else {
        insert_by_addr(sort_by_addr(s.drop_last()), s.last())
    }
}

/// Addresses never go down along the sequence.
pub open spec fn sorted_by_addr(s: Seq<Register>) -> bool {
    forall|i: int, j: int| 0 <= i < j < s.len() ==> s[i].addr <= s[j].addr
}

/// The registers of the members, in order.
pub open spec fn registers_of(ms: Seq<Member>) -> Seq<Register> {
    ms.map_values(|m: Member| m.register)
}

/// Members laid end to end from `start`, each at its own offset, none placed
/// more than the read limit after the start.
pub open spec fn chain_ok(ms: Seq<Member>, start: int) -> bool {
    &&& ms.len() > 0
    &&& ms[0].register.addr == start
    &&& forall|k: int|
        0 <= k < ms.len() ==> ms[k].offset == ms[k].register.addr - start
            && ms[k].register.addr - start <= MODBUS_MAX_READ_LEN
    &&& forall|k: int| 1 <= k < ms.len() ==> ms[k].register.addr == end_of(ms[k - 1].register)
}

/// A range reads from its first member's address to the end of its last member.
pub open spec fn range_ok(r: ReadRange) -> bool {
    &&& chain_ok(r.members@, r.start_address as int)
    &&& r.word_count == end_of(r.members@.last().register) - r.start_address
}

/// Whether `next` cannot join the range `prev`: it would start too far from the
/// range's start, or it does not begin where the range's last register ends.
pub open spec fn splits(prev: ReadRange, next: Register) -> bool {
    next.addr - prev.start_address > MODBUS_MAX_READ_LEN || next.addr != end_of(
        prev.members@.last().register,
    )
}

/// The registers of all ranges, in order.
pub open spec fn flatten(rs: Seq<ReadRange>) -> Seq<Register>
    decreases rs.len(),
{
    if rs.len() == 0 {
        Seq::empty()
    } else {
        flatten(rs.drop_last()) + registers_of(rs.last().members@)
    }
}

/// `rs` is the plan of `regs`: the address-sorted registers cut into well-formed
/// ranges, with a cut exactly where a register cannot join the range before it.
pub open spec fn is_plan(rs: Seq<ReadRange>, regs: Seq<Register>) -> bool {
    &&& flatten(rs) == sort_by_addr(regs)
    &&& forall|j: int| 0 <= j < rs.len() ==> range_ok(#[trigger] rs[j])
    &&& forall|j: int|
        1 <= j < rs.len() ==> splits(#[trigger] rs[j - 1], rs[j].members@[0].register)
}

proof fn lemma_insert_at(s: Seq<Register>, x: Register, k: int)
    requires
        0 <= k <= s.len(),
        k == 0 || s[k - 1].addr <= x.addr,
        forall|j: int| k <= j < s.len() ==> s[j].addr > x.addr,
    ensures
        insert_by_addr(s, x) == s.insert(k, x),
    decreases s.len(),
{
    if s.len() == 0 {
        assert(s.insert(k, x) =~= seq![x]);
    } else if s.last().addr <= x.addr {
        assert(s.insert(k, x) =~= s.push(x));
    } else {
        lemma_insert_at(s.drop_last(), x, k);
        assert(s.insert(k, x) =~= s.drop_last().insert(k, x).push(s.last()));
    }
}

proof fn lemma_insert_by_addr(s: Seq<Register>, x: Register)
    requires
        sorted_by_addr(s),
    ensures
        sorted_by_addr(insert_by_addr(s, x)),
        insert_by_addr(s, x).to_multiset() == s.to_multiset().insert(x),
        insert_by_addr(s, x).len() == s.len() + 1,
    decreases s.len(),
{
    broadcast use vstd::seq_lib::group_to_multiset_ensures;

    if s.len() == 0 {
        assert(seq![x] =~= Seq::<Register>::empty().push(x));
    } else if s.last().addr <= x.addr {
    } else {
        let t = s.drop_last();
        lemma_insert_by_addr(t, x);
        let u = insert_by_addr(t, x);
        assert(s =~= t.push(s.last()));
        assert forall|i: int| 0 <= i < u.len() implies u[i].addr <= s.last().addr by {
            assert(u.to_multiset().count(u[i]) > 0);
            if u[i] != x {
                assert(t.to_multiset().count(u[i]) > 0);
                assert(t.contains(u[i]));
            }
        }
    }
}

/// Sorting by address keeps every register, and orders them.
pub proof fn lemma_sort_by_addr(s: Seq<Register>)
    ensures
        sorted_by_addr(sort_by_addr(s)),
        sort_by_addr(s).to_multiset() == s.to_multiset(),
        sort_by_addr(s).len() == s.len(),
    decreases s.len(),
{
    broadcast use vstd::seq_lib::group_to_multiset_ensures;

    if s.len() > 0 {
        lemma_sort_by_addr(s.drop_last());
        lemma_insert_by_addr(sort_by_addr(s.drop_last()), s.last());
        assert(s =~= s.drop_last().push(s.last()));
    }
}

/// Orders the registers by address, keeping the input order among equal addresses.
pub fn sort_registers(regs: Vec<Register>) -> (out: Vec<Register>)
    ensures
        out@ == sort_by_addr(regs@),
{
    let ghost orig = regs@;
    let mut rest = regs;
    let mut out: Vec<Register> = Vec::new();
    let n = rest.len();
    let mut i: usize = 0;
    while i < n
        invariant
            n == orig.len(),
            0 <= i <= n,
            rest@ == orig.subrange(i as int, n as int),
            out@ == sort_by_addr(orig.subrange(0, i as int)),
        decreases n - i,
    {
        let x = rest.remove(0);
        assert(x == orig[i as int]);
        let mut k: usize = out.len();
        while k > 0 && out[k - 1].addr > x.addr
            invariant
                0 <= k <= out.len(),
                forall|j: int| k <= j < out.len() ==> out@[j].addr > x.addr,
            decreases k,
        {
            k = k - 1;
        }
        proof {
            lemma_insert_at(out@, x, k as int);
            assert(orig.subrange(0, i + 1).drop_last() =~= orig.subrange(0, i as int));
        }
        out.insert(k, x);
        i = i + 1;
        assert(rest@ =~= orig.subrange(i as int, n as int));
    }
    assert(orig.subrange(0, n as int) =~= orig);
    out
}

proof fn lemma_flatten_push(rs: Seq<ReadRange>, r: ReadRange)
    ensures
        flatten(rs.push(r)) == flatten(rs) + registers_of(r.members@),
{
    assert(rs.push(r).drop_last() =~= rs);
}

/// The state while ranges are being built: `ranges` closed, `pending` open from
/// `start` up to `end`, together holding `done` in order.
#[verifier::opaque]
spec fn building(
    ranges: Seq<ReadRange>,
    pending: Seq<Member>,
    start: int,
    end: int,
    done: Seq<Register>,
) -> bool {
    &&& flatten(ranges) + registers_of(pending) == done
    &&& forall|j: int| 0 <= j < ranges.len() ==> range_ok(#[trigger] ranges[j])
    &&& forall|j: int|
        1 <= j < ranges.len() ==> splits(#[trigger] ranges[j - 1], ranges[j].members@[0].register)
    &&& done.len() == 0 ==> pending.len() == 0 && ranges.len() == 0
    &&& done.len() > 0 ==> {
        &&& chain_ok(pending, start)
        &&& end == end_of(pending.last().register)
        &&& ranges.len() > 0 ==> splits(ranges.last(), pending[0].register)
    }
}

proof fn lemma_building_empty()
    ensures
        building(Seq::empty(), Seq::empty(), 0, 0, Seq::empty()),
{
    reveal(building);
    assert(registers_of(Seq::empty()) =~= Seq::<Register>::empty());
}

proof fn lemma_building_first(m: Member)
    requires
        m.offset == 0,
    ensures
        building(
            Seq::empty(),
            seq![m],
            m.register.addr as int,
            end_of(m.register),
            seq![m.register],
        ),
{
    reveal(building);
    assert(registers_of(seq![m]) =~= seq![m.register]);
    assert(flatten(Seq::empty()) + seq![m.register] =~= seq![m.register]);
}

proof fn lemma_building_extend(
    ranges: Seq<ReadRange>,
    pending: Seq<Member>,
    start: int,
    end: int,
    done: Seq<Register>,
    m: Member,
)
    requires
        building(ranges, pending, start, end, done),
        done.len() > 0,
        m.register.addr == end,
        m.register.addr - start <= MODBUS_MAX_READ_LEN,
        m.offset == m.register.addr - start,
    ensures
        building(ranges, pending.push(m), start, end_of(m.register), done.push(m.register)),
{
    reveal(building);
    assert(registers_of(pending.push(m)) =~= registers_of(pending).push(m.register));
    assert(flatten(ranges) + registers_of(pending.push(m)) =~= done.push(m.register));
}

proof fn lemma_building_close(
    ranges: Seq<ReadRange>,
    pending: Seq<Member>,
    start: int,
    end: int,
    done: Seq<Register>,
    range: ReadRange,
)
    requires
        building(ranges, pending, start, end, done),
        done.len() > 0,
        range.start_address == start,
        range.word_count == end - start,
        range.members@ == pending,
    ensures
        range_ok(range),
        flatten(ranges.push(range)) == done,
        forall|j: int| 0 <= j < ranges.len() + 1 ==> range_ok(#[trigger] ranges.push(range)[j]),
        forall|j: int|
            1 <= j < ranges.len() + 1 ==> splits(
                #[trigger] ranges.push(range)[j - 1],
                ranges.push(range)[j].members@[0].register,
            ),
{
    reveal(building);
    lemma_flatten_push(ranges, range);
    let rs = ranges.push(range);
    assert forall|j: int| 1 <= j < ranges.len() + 1 implies splits(
        #[trigger] rs[j - 1],
        rs[j].members@[0].register,
    ) by {
        if j < ranges.len() {
            assert(rs[j - 1] == ranges[j - 1]);
            assert(rs[j] == ranges[j]);
        }
    }
}

proof fn lemma_building_restart(
    ranges: Seq<ReadRange>,
    pending: Seq<Member>,
    start: int,
    end: int,
    done: Seq<Register>,
    range: ReadRange,
    m: Member,
)
    requires
        building(ranges, pending, start, end, done),
        done.len() > 0,
        range.start_address == start,
        range.word_count == end - start,
        range.members@ == pending,
        m.offset == 0,
        m.register.addr - start > MODBUS_MAX_READ_LEN || m.register.addr != end,
    ensures
        building(
            ranges.push(range),
            seq![m],
            m.register.addr as int,
            end_of(m.register),
            done.push(m.register),
        ),
{
    lemma_building_close(ranges, pending, start, end, done, range);
    reveal(building);
    assert(registers_of(seq![m]) =~= seq![m.register]);
    assert(ranges.push(range).last() == range);
    assert(splits(range, m.register));
    assert(flatten(ranges.push(range)) + registers_of(seq![m]) =~= done.push(m.register));
}

proof fn lemma_building_bounds(
    ranges: Seq<ReadRange>,
    pending: Seq<Member>,
    start: int,
    end: int,
    done: Seq<Register>,
)
    requires
        building(ranges, pending, start, end, done),
    ensures
        done.len() > 0 ==> pending.len() > 0 && start <= end,
        done.len() == 0 ==> pending.len() == 0 && ranges.len() == 0,
{
    reveal(building);
    if done.len() > 0 {
        let last = pending.last();
        assert(last.offset == last.register.addr - start);
    }
}

/// Cuts the registers into read ranges: sorted by address, a register joins the
/// range being built when it begins exactly where that range's last register
/// ends and no more than the read limit after the range's start; otherwise the
/// range is closed and a new one begins with it. The last range is always closed.
pub fn plan_read_ranges(regs: Vec<Register>) -> (rs: Vec<ReadRange>)
    ensures
        is_plan(rs@, regs@),
        regs@.len() == 0 <==> rs@.len() == 0,
{
    let ghost s = sort_by_addr(regs@);
    proof {
        lemma_sort_by_addr(regs@);
    }
    let mut rest = sort_registers(regs);
    let n = rest.len();
    let mut ranges: Vec<ReadRange> = Vec::new();
    let mut pending: Vec<Member> = Vec::new();
    let mut start: u16 = 0;
    let mut end: u32 = 0;
    let mut i: usize = 0;
    proof {
        lemma_building_empty();
        assert(s.subrange(0, 0) =~= Seq::<Register>::empty());
    }
    while i < n
        invariant
            n == s.len(),
            0 <= i <= n,
            rest@ == s.subrange(i as int, n as int),
            building(ranges@, pending@, start as int, end as int, s.subrange(0, i as int)),
        decreases n - i,
    {
        let r = rest.remove(0);
        assert(r == s[i as int]);
        let ghost done = s.subrange(0, i as int);
        assert(s.subrange(0, i + 1) =~= done.push(r));
        proof {
            lemma_building_bounds(ranges@, pending@, start as int, end as int, done);
        }
        if i == 0 {
            start = r.addr;
            end = r.addr as u32 + r.len as u32;
            let m = Member { register: r, offset: 0 };
            proof {
                lemma_building_first(m);
                assert(done.push(m.register) =~= seq![m.register]);
                assert(ranges@ =~= Seq::<ReadRange>::empty());
                assert(pending@ =~= Seq::<Member>::empty());
            }
            pending.push(m);
            assert(pending@ =~= seq![m]);
        } else if (r.addr as u32) > (start as u32) + (MODBUS_MAX_READ_LEN as u32) || (r.addr as u32)
            != end {
            let range = ReadRange { start_address: start, word_count: end - start as u32, members: pending };
            let m = Member { register: r, offset: 0 };
            proof {
                lemma_building_restart(ranges@, range.members@, start as int, end as int, done, range, m);
            }
            ranges.push(range);
            pending = Vec::new();
            start = m.register.addr;
            end = m.register.addr as u32 + m.register.len as u32;
            pending.push(m);
            assert(pending@ =~= seq![m]);
        } else {
            let offset: u16 = r.addr - start;
            let m = Member { register: r, offset };
            proof {
                lemma_building_extend(ranges@, pending@, start as int, end as int, done, m);
            }
            end = m.register.addr as u32 + m.register.len as u32;
            pending.push(m);
        }
        i = i + 1;
        assert(rest@ =~= s.subrange(i as int, n as int));
    }
    assert(s.subrange(0, n as int) =~= s);
    proof {
        lemma_building_bounds(ranges@, pending@, start as int, end as int, s);
    }
    if i > 0 {
        let range = ReadRange { start_address: start, word_count: end - start as u32, members: pending };
        proof {
            lemma_building_close(ranges@, range.members@, start as int, end as int, s, range);
        }
        ranges.push(range);
    }
    ranges
}

/// Every register given to the planner appears in exactly one emitted range,
/// and the ranges hold no other register.
pub proof fn lemma_plan_covers(regs: Seq<Register>, rs: Seq<ReadRange>)
    requires
        is_plan(rs, regs),
    ensures
        flatten(rs).to_multiset() == regs.to_multiset(),
{
    lemma_sort_by_addr(regs);
}

proof fn lemma_flatten_contains(rs: Seq<ReadRange>, j: int, k: int)
    requires
        0 <= j < rs.len(),
        0 <= k < rs[j].members@.len(),
    ensures
        flatten(rs).contains(rs[j].members@[k].register),
    decreases rs.len(),
{
    let head = flatten(rs.drop_last());
    let tail = registers_of(rs.last().members@);
    if j == rs.len() - 1 {
        assert((head + tail)[head.len() + k] == tail[k]);
    } else {
        lemma_flatten_contains(rs.drop_last(), j, k);
        let i = choose|i: int| 0 <= i < head.len() && head[i] == rs[j].members@[k].register;
        assert((head + tail)[i] == head[i]);
    }
}

/// Every register placed in a range of a plan is one of the planned registers.
pub proof fn lemma_planned_is_input(regs: Seq<Register>, rs: Seq<ReadRange>, j: int, k: int)
    requires
        is_plan(rs, regs),
        0 <= j < rs.len(),
        0 <= k < rs[j].members@.len(),
    ensures
        regs.contains(rs[j].members@[k].register),
{
    broadcast use vstd::seq_lib::group_to_multiset_ensures;

    lemma_flatten_contains(rs, j, k);
    lemma_plan_covers(regs, rs);
    assert(flatten(rs).to_multiset().count(rs[j].members@[k].register) > 0);
}

/// When every register ends within the read limit of the start of every
/// register, no emitted range asks for more words than the read limit.
pub proof fn lemma_span_bound(regs: Seq<Register>, rs: Seq<ReadRange>)
    requires
        is_plan(rs, regs),
        forall|a: int, b: int|
            0 <= a < regs.len() && 0 <= b < regs.len() ==> end_of(regs[b]) - regs[a].addr
                <= MODBUS_MAX_READ_LEN,
    ensures
        forall|j: int| 0 <= j < rs.len() ==> rs[j].word_count <= MODBUS_MAX_READ_LEN,
{
    assert forall|j: int| 0 <= j < rs.len() implies rs[j].word_count <= MODBUS_MAX_READ_LEN by {
        let ms = rs[j].members@;
        assert(range_ok(rs[j]));
        lemma_planned_is_input(regs, rs, j, 0);
        lemma_planned_is_input(regs, rs, j, ms.len() - 1);
        let a = choose|a: int| 0 <= a < regs.len() && regs[a] == ms[0].register;
        let b = choose|b: int| 0 <= b < regs.len() && regs[b] == ms[ms.len() - 1].register;
        assert(end_of(regs[b]) - regs[a].addr <= MODBUS_MAX_READ_LEN);
    }
}

proof fn lemma_sort_sorted(s: Seq<Register>)
    requires
        sorted_by_addr(s),
    ensures
        sort_by_addr(s) == s,
    decreases s.len(),
{
    if s.len() > 0 {
        let p = s.drop_last();
        lemma_sort_sorted(p);
        assert(s =~= p.push(s.last()));
        if p.len() > 0 {
            assert(p.last() == s[s.len() - 2]);
        }
    }
}

proof fn lemma_flatten_prefix(rs: Seq<ReadRange>, m: int)
    requires
        0 <= m <= rs.len(),
    ensures
        flatten(rs.subrange(0, m)).len() <= flatten(rs).len(),
        flatten(rs).subrange(0, flatten(rs.subrange(0, m)).len() as int) == flatten(
            rs.subrange(0, m),
        ),
    decreases rs.len(),
{
    if m == rs.len() {
        assert(rs.subrange(0, m) =~= rs);
        assert(flatten(rs).subrange(0, flatten(rs).len() as int) =~= flatten(rs));
    } else {
        let p = rs.drop_last();
        lemma_flatten_prefix(p, m);
        assert(p.subrange(0, m) =~= rs.subrange(0, m));
        let f = flatten(rs.subrange(0, m));
        assert(flatten(rs).subrange(0, f.len() as int) =~= flatten(p).subrange(0, f.len() as int));
    }
}

proof fn lemma_run_rises(regs: Seq<Register>, i: int, k: int)
    requires
        0 <= i <= k < regs.len(),
        forall|j: int| 1 <= j < regs.len() ==> regs[j].addr == end_of(#[trigger] regs[j - 1]),
    ensures
        regs[i].addr <= regs[k].addr,
    decreases k - i,
{
    if k > i {
        lemma_run_rises(regs, i, k - 1);
        assert(regs[k].addr == end_of(regs[k - 1]));
    }
}

/// Registers laid end to end, all starting within the read limit of the
/// first, are planned as exactly one range holding all of them: the last range
/// is never lost.
pub proof fn lemma_contiguous_run_is_one_range(regs: Seq<Register>, rs: Seq<ReadRange>)
    requires
        is_plan(rs, regs),
        regs.len() > 0,
        forall|i: int| 1 <= i < regs.len() ==> regs[i].addr == end_of(#[trigger] regs[i - 1]),
        forall|i: int| 0 <= i < regs.len() ==> (#[trigger] regs[i]).addr - regs[0].addr
            <= MODBUS_MAX_READ_LEN,
    ensures
        rs.len() == 1,
        registers_of(rs[0].members@) == regs,
{
    assert forall|i: int, j: int| 0 <= i < j < regs.len() implies regs[i].addr <= regs[j].addr by {
        lemma_run_rises(regs, i, j);
    }
    lemma_sort_sorted(regs);
    assert(rs.len() > 0) by {
        if rs.len() == 0 {
            assert(flatten(rs).len() == 0);
        }
    }
    if rs.len() >= 2 {
        lemma_flatten_prefix(rs, 2);
        let two = rs.subrange(0, 2);
        assert(two.drop_last() =~= seq![rs[0]]);
        assert(seq![rs[0]].drop_last() =~= Seq::<ReadRange>::empty());
        let a = registers_of(rs[0].members@);
        let b = registers_of(rs[1].members@);
        assert(flatten(seq![rs[0]]) == flatten(Seq::<ReadRange>::empty()) + a);
        assert(flatten(seq![rs[0]]) =~= a);
        assert(flatten(two) =~= a + b);
        assert(range_ok(rs[0]));
        assert(range_ok(rs[1]));
        let n0 = a.len() as int;
        assert(regs[n0] == (a + b)[n0]);
        assert(regs[n0 - 1] == (a + b)[n0 - 1]);
        assert(regs[0] == (a + b)[0]);
        assert(splits(rs[0], rs[1].members@[0].register));
        assert(false);
    }
    assert(rs.drop_last() =~= Seq::<ReadRange>::empty());
    assert(flatten(rs) == flatten(Seq::<ReadRange>::empty()) + registers_of(rs[0].members@));
    assert(flatten(rs) =~= registers_of(rs[0].members@));
}

/// The first range of a plan holds the first registers in address order.
proof fn lemma_first_range_prefix(regs: Seq<Register>, rs: Seq<ReadRange>)
    requires
        is_plan(rs, regs),
        sorted_by_addr(regs),
        rs.len() > 0,
    ensures
        registers_of(rs[0].members@).len() <= regs.len(),
        regs.subrange(0, registers_of(rs[0].members@).len() as int) == registers_of(rs[0].members@),
{
    lemma_sort_sorted(regs);
    lemma_flatten_prefix(rs, 1);
    let one = rs.subrange(0, 1);
    assert(one =~= seq![rs[0]]);
    assert(one.drop_last() =~= Seq::<ReadRange>::empty());
    assert(flatten(one) == flatten(Seq::<ReadRange>::empty()) + registers_of(rs[0].members@));
    assert(flatten(one) =~= registers_of(rs[0].members@));
}

/// Registers laid end to end whose span passes the read limit are cut: the
/// first range ends just before the first register that starts more than the
/// read limit after the first one, and more ranges follow.
pub proof fn lemma_split_on_size(regs: Seq<Register>, rs: Seq<ReadRange>, p: int)
    requires
        is_plan(rs, regs),
        0 < p < regs.len(),
        forall|i: int| 1 <= i < regs.len() ==> regs[i].addr == end_of(#[trigger] regs[i - 1]),
        regs[p].addr - regs[0].addr > MODBUS_MAX_READ_LEN,
        forall|i: int| 0 <= i < p ==> (#[trigger] regs[i]).addr - regs[0].addr <= MODBUS_MAX_READ_LEN,
    ensures
        rs.len() >= 2,
        registers_of(rs[0].members@) == regs.subrange(0, p),
{
    assert forall|i: int, j: int| 0 <= i < j < regs.len() implies regs[i].addr <= regs[j].addr by {
        lemma_run_rises(regs, i, j);
    }
    lemma_sort_sorted(regs);
    assert(rs.len() > 0) by {
        if rs.len() == 0 {
            assert(flatten(rs).len() == 0);
        }
    }
    lemma_first_range_prefix(regs, rs);
    let a = registers_of(rs[0].members@);
    let n0 = a.len() as int;
    assert(range_ok(rs[0]));
    assert(a[0] == regs[0]);
    if n0 > p {
        assert(a[p] == regs[p]);
        assert(rs[0].members@[p].register == regs[p]);
        assert(false);
    }
    if rs.len() == 1 {
        assert(rs.drop_last() =~= Seq::<ReadRange>::empty());
        assert(flatten(rs) == flatten(Seq::<ReadRange>::empty()) + a);
        assert(flatten(rs) =~= a);
        assert(false);
    }
    if n0 < p {
        lemma_flatten_prefix(rs, 2);
        let two = rs.subrange(0, 2);
        assert(two.drop_last() =~= seq![rs[0]]);
        assert(seq![rs[0]].drop_last() =~= Seq::<ReadRange>::empty());
        let b = registers_of(rs[1].members@);
        assert(flatten(seq![rs[0]]) == flatten(Seq::<ReadRange>::empty()) + a);
        assert(flatten(seq![rs[0]]) =~= a);
        assert(flatten(two) =~= a + b);
        assert(range_ok(rs[1]));
        assert(regs[n0] == (a + b)[n0]);
        assert(regs[n0 - 1] == (a + b)[n0 - 1]);
        assert(splits(rs[0], rs[1].members@[0].register));
        assert(false);
    }
    assert(regs.subrange(0, p) =~= a);
}

} // verus!
