//! The seccomp baseline as a filter: a deny-list whose default is to allow, so an ordinary
//! toolchain is never tripped by a forgotten syscall. The escalation and confinement-shedding
//! syscalls are denied outright, socket creation is denied for the governed families (never for
//! AF_UNIX, so the injected-descriptor seam stays open), and a new user namespace is refused. The
//! rule table is decided here; seccompiler compiles it into the BPF program the child installs.

use vstd::prelude::*;
use seccompiler::{BpfProgram, SeccompAction, SeccompCmpArgLen, SeccompCmpOp, SeccompCondition, SeccompFilter, SeccompRule, TargetArch};
use crate::confine::ConfineError;
use crate::names::{map_get, strs_view, NameMap};
use crate::policy::{SeccompPlan, SocketFamily};
use crate::seam::{debug_quoted, debug_str};
use crate::text::{push_str, starts_with};

verus! {

#[verifier::external_type_specification]
#[verifier::external_body]
pub struct ExSeccompRule(seccompiler::SeccompRule);

#[verifier::external_type_specification]
#[verifier::external_body]
pub struct ExTargetArch(seccompiler::TargetArch);

#[verifier::external_type_specification]
#[verifier::external_body]
pub struct ExBackendError(seccompiler::BackendError);

/// The kernel's argument-type mask for `socket(2)`'s second argument (flags such as
/// `SOCK_CLOEXEC` sit above it).
pub const SOCK_TYPE_MASK: u64 = 15;

/// The largest syscall-argument index a condition may name.
pub const MAX_ARG_INDEX: u8 = 5;

/// The numbers the filter needs on the architecture it is built for: syscall numbers by name, and
/// the socket, clone and errno constants.
pub struct ArchNumbers {
    pub syscalls: NameMap<i64>,
    pub sys_socket: i64,
    pub sys_unshare: i64,
    pub sys_clone: i64,
    pub af_inet: u64,
    pub af_inet6: u64,
    pub af_packet: u64,
    pub af_netlink: u64,
    pub netlink_route: u64,
    pub sock_dgram: u64,
    pub sock_raw: u64,
    pub clone_newuser: u64,
    pub eperm: u32,
}

/// A comparison on one 32-bit syscall argument: equal, not equal, or equal under a mask.
#[derive(Clone, Copy, Debug, PartialEq, Eq, Structural)]
pub enum ArgTest {
    Eq,
    Ne,
    Masked(u64),
}

#[derive(Clone, Copy, Debug, PartialEq, Eq, Structural)]
pub struct ArgCheck {
    pub arg: u8,
    pub test: ArgTest,
    pub value: u64,
}

/// One syscall's rules: the call is denied when any rule holds, a rule holds when all its checks
/// do, and an entry with no rules denies the call outright.
#[derive(Debug)]
pub struct FilterEntry {
    pub nr: i64,
    pub rules: Vec<Vec<ArgCheck>>,
}

pub type RulesModel = Seq<Seq<ArgCheck>>;

pub type TableModel = Seq<(i64, RulesModel)>;

pub open spec fn rules_view(v: Seq<Vec<ArgCheck>>) -> RulesModel {
    v.map_values(|r: Vec<ArgCheck>| r@)
}

pub open spec fn table_view(v: Seq<FilterEntry>) -> TableModel {
    v.map_values(|e: FilterEntry| (e.nr, rules_view(e.rules@)))
}

/// Where `nr`'s entry stands.
pub open spec fn nr_index(t: TableModel, nr: i64) -> Option<int>
    decreases t.len(),
{
    if t.len() == 0 {
        None
    } else {
        match nr_index(t.drop_last(), nr) {
            Some(i) => Some(i),
            None => if t.last().0 == nr {
                Some(t.len() - 1)
            } else {
                None
            },
        }
    }
}

/// `rules` appended to `nr`'s entry, which is created (last) if absent.
pub open spec fn with_rules(t: TableModel, nr: i64, rules: RulesModel) -> TableModel {
    match nr_index(t, nr) {
        Some(i) => t.update(i, (nr, t[i].1 + rules)),
        None => t.push((nr, rules)),
    }
}

/// An outright deny for each named syscall, in order; the first name without a number on this
/// architecture refuses the whole filter (skipping it would silently weaken the baseline).
pub open spec fn deny_table(names: Seq<Seq<char>>, nums: Seq<(Seq<char>, i64)>) -> Result<TableModel, Seq<char>>
    decreases names.len(),
{
    if names.len() == 0 {
        Ok(Seq::empty())
    } else {
        match deny_table(names.drop_last(), nums) {
            Err(n) => Err(n),
            Ok(t) => match map_get(nums, names.last()) {
                None => Err(names.last()),
                Some(nr) => Ok(with_rules(t, nr, Seq::empty())),
            },
        }
    }
}

pub open spec fn eq_check(arg: u8, value: u64) -> ArgCheck {
    ArgCheck { arg, test: ArgTest::Eq, value }
}

/// The `socket(2)` rules for one family: its domain, and for netlink every protocol but route
/// (what name resolution and interface listing reach for).
pub open spec fn family_rules(f: SocketFamily, n: ArchNumbers) -> RulesModel {
    match f {
        SocketFamily::Inet => seq![seq![eq_check(0, n.af_inet)]],
        SocketFamily::Inet6 => seq![seq![eq_check(0, n.af_inet6)]],
        SocketFamily::Packet => seq![seq![eq_check(0, n.af_packet)]],
        SocketFamily::NetlinkNonRoute => seq![seq![eq_check(0, n.af_netlink), ArgCheck { arg: 2, test: ArgTest::Ne, value: n.netlink_route }]],
    }
}

pub open spec fn families_rules(fs: Seq<SocketFamily>, n: ArchNumbers) -> RulesModel
    decreases fs.len(),
{
    if fs.len() == 0 {
        Seq::empty()
    } else {
        families_rules(fs.drop_last(), n) + family_rules(fs.last(), n)
    }
}

pub open spec fn type_check(kind: u64) -> ArgCheck {
    ArgCheck { arg: 1, test: ArgTest::Masked(SOCK_TYPE_MASK), value: kind }
}

/// The port tier's half: inet and inet6 datagram and raw sockets, streams left to Landlock.
pub open spec fn dgram_raw_rules(n: ArchNumbers) -> RulesModel {
    seq![
        seq![eq_check(0, n.af_inet), type_check(n.sock_dgram)],
        seq![eq_check(0, n.af_inet), type_check(n.sock_raw)],
        seq![eq_check(0, n.af_inet6), type_check(n.sock_dgram)],
        seq![eq_check(0, n.af_inet6), type_check(n.sock_raw)],
    ]
}

pub open spec fn socket_rules(p: SeccompPlan, n: ArchNumbers) -> RulesModel {
    families_rules(p.deny_socket_families@, n) + (if p.deny_inet_dgram_raw {
        dgram_raw_rules(n)
    } else {
        Seq::empty()
    })
}

/// `(arg0 & CLONE_NEWUSER) == CLONE_NEWUSER`: the call asks for a new user namespace.
pub open spec fn userns_rules(n: ArchNumbers) -> RulesModel {
    seq![seq![ArgCheck { arg: 0, test: ArgTest::Masked(n.clone_newuser), value: n.clone_newuser }]]
}

/// The filter's table for a plan: the outright denies, then the socket rules, then the
/// user-namespace rules on `unshare` and `clone`.
pub open spec fn filter_table_of(p: SeccompPlan, n: ArchNumbers) -> Result<TableModel, Seq<char>> {
    match deny_table(strs_view(p.deny_syscalls@), n.syscalls@) {
        Err(name) => Err(name),
        Ok(t) => {
            let sock = socket_rules(p, n);
            let t1 = if sock.len() > 0 {
                with_rules(t, n.sys_socket, sock)
            } else {
                t
            };
            Ok(
                if p.restrict_userns {
                    with_rules(with_rules(t1, n.sys_unshare, userns_rules(n)), n.sys_clone, userns_rules(n))
                } else {
                    t1
                },
            )
        },
    }
}

fn table_index(t: &Vec<FilterEntry>, nr: i64) -> (r: Option<usize>)
    ensures
        match r {
            Some(i) => nr_index(table_view(t@), nr) == Some(i as int),
            None => nr_index(table_view(t@), nr) is None,
        },
{
    let ghost tv = table_view(t@);
    let mut i: usize = 0;
    assert(tv.take(0) =~= Seq::<(i64, RulesModel)>::empty());
    while i < t.len()
        invariant
            tv == table_view(t@),
            i <= t.len(),
            nr_index(tv.take(i as int), nr) is None,
        decreases t.len() - i,
    {
        assert(tv.take(i + 1).drop_last() =~= tv.take(i as int));
        if t[i].nr == nr {
            proof {
                lemma_index_extends(tv, i as int + 1, nr);
            }
            return Some(i);
        }
        i = i + 1;
    }
    assert(tv.take(t.len() as int) =~= tv);
    None
}

proof fn lemma_index_in_range(t: TableModel, nr: i64)
    ensures
        nr_index(t, nr) matches Some(i) ==> 0 <= i < t.len() && t[i].0 == nr,
    decreases t.len(),
{
    if t.len() > 0 {
        lemma_index_in_range(t.drop_last(), nr);
    }
}

proof fn lemma_rules_push(v: Seq<Vec<ArgCheck>>, x: Vec<ArgCheck>)
    ensures
        rules_view(v.push(x)) == rules_view(v).push(x@),
{
    assert(rules_view(v.push(x)) =~= rules_view(v).push(x@));
}

proof fn lemma_index_extends(t: TableModel, k: int, nr: i64)
    requires
        0 < k <= t.len(),
        nr_index(t.take(k - 1), nr) is None,
        t[k - 1].0 == nr,
    ensures
        nr_index(t, nr) == Some(k - 1),
    decreases t.len() - k,
{
    assert(t.take(k).drop_last() =~= t.take(k - 1));
    assert(nr_index(t.take(k), nr) == Some(k - 1));
    if k < t.len() {
        lemma_index_sticks(t, k, nr);
    } else {
        assert(t.take(k) =~= t);
    }
}

proof fn lemma_index_sticks(t: TableModel, k: int, nr: i64)
    requires
        0 < k <= t.len(),
        nr_index(t.take(k), nr) is Some,
    ensures
        nr_index(t, nr) == nr_index(t.take(k), nr),
    decreases t.len() - k,
{
    if k < t.len() {
        assert(t.take(k + 1).drop_last() =~= t.take(k));
        lemma_index_sticks(t, k + 1, nr);
    } else {
        assert(t.take(k) =~= t);
    }
}

fn append_rules(t: &mut Vec<FilterEntry>, nr: i64, rules: Vec<Vec<ArgCheck>>)
    ensures
        table_view(final(t)@) == with_rules(table_view(old(t)@), nr, rules_view(rules@)),
{
    let ghost tv = table_view(t@);
    match table_index(t, nr) {
        Some(i) => {
            proof {
                lemma_index_in_range(tv, nr);
            }
            let mut e = t.remove(i);
            let ghost before = rules_view(e.rules@);
            let mut k: usize = 0;
            while k < rules.len()
                invariant
                    k <= rules.len(),
                    e.nr == nr,
                    rules_view(e.rules@) == before + rules_view(rules@).take(k as int),
                decreases rules.len() - k,
            {
                let ghost prev = e.rules@;
                e.rules.push(copy_checks(&rules[k]));
                proof {
                    lemma_rules_push(prev, rules@[k as int]);
                }
                assert(rules_view(rules@).take(k + 1) =~= rules_view(rules@).take(k as int).push(rules@[k as int]@));
                assert(rules_view(e.rules@) =~= before + rules_view(rules@).take(k + 1));
                k = k + 1;
            }
            assert(rules_view(rules@).take(rules.len() as int) =~= rules_view(rules@));
            t.insert(i, e);
            assert(table_view(t@) =~= tv.update(i as int, (nr, tv[i as int].1 + rules_view(rules@))));
        },
        None => {
            t.push(FilterEntry { nr, rules });
            assert(table_view(t@) =~= tv.push((nr, rules_view(rules@))));
        },
    }
}

fn copy_checks(v: &Vec<ArgCheck>) -> (r: Vec<ArgCheck>)
    ensures
        r@ == v@,
{
    let mut out: Vec<ArgCheck> = Vec::new();
    let mut i: usize = 0;
    while i < v.len()
        invariant
            i <= v.len(),
            out@ == v@.take(i as int),
        decreases v.len() - i,
    {
        out.push(v[i]);
        assert(out@ =~= v@.take(i + 1));
        i = i + 1;
    }
    assert(v@.take(v.len() as int) =~= v@);
    out
}

fn check(arg: u8, test: ArgTest, value: u64) -> (r: ArgCheck)
    ensures
        r == (ArgCheck { arg, test, value }),
{
    ArgCheck { arg, test, value }
}

fn family_rules_exec(f: SocketFamily, n: &ArchNumbers) -> (r: Vec<Vec<ArgCheck>>)
    ensures
        rules_view(r@) == family_rules(f, *n),
{
    let mut rule: Vec<ArgCheck> = Vec::new();
    match f {
        SocketFamily::Inet => {
            rule.push(check(0, ArgTest::Eq, n.af_inet));
            assert(rule@ =~= seq![eq_check(0, n.af_inet)]);
        },
        SocketFamily::Inet6 => {
            rule.push(check(0, ArgTest::Eq, n.af_inet6));
            assert(rule@ =~= seq![eq_check(0, n.af_inet6)]);
        },
        SocketFamily::Packet => {
            rule.push(check(0, ArgTest::Eq, n.af_packet));
            assert(rule@ =~= seq![eq_check(0, n.af_packet)]);
        },
        SocketFamily::NetlinkNonRoute => {
            rule.push(check(0, ArgTest::Eq, n.af_netlink));
            rule.push(check(2, ArgTest::Ne, n.netlink_route));
            assert(rule@ =~= seq![eq_check(0, n.af_netlink), ArgCheck { arg: 2, test: ArgTest::Ne, value: n.netlink_route }]);
        },
    }
    let ghost rv = rule@;
    assert(family_rules(f, *n) =~= seq![rv]);
    let mut r: Vec<Vec<ArgCheck>> = Vec::new();
    r.push(rule);
    proof {
        lemma_rules_push(Seq::empty(), r@[0]);
        assert(Seq::<Vec<ArgCheck>>::empty().push(r@[0]) =~= r@);
        assert(rules_view(Seq::<Vec<ArgCheck>>::empty()) =~= Seq::<Seq<ArgCheck>>::empty());
    }
    assert(rules_view(r@) =~= family_rules(f, *n));
    r
}

fn socket_rules_exec(p: &SeccompPlan, n: &ArchNumbers) -> (r: Vec<Vec<ArgCheck>>)
    ensures
        rules_view(r@) == socket_rules(*p, *n),
{
    let ghost fs = p.deny_socket_families@;
    let mut out: Vec<Vec<ArgCheck>> = Vec::new();
    let mut i: usize = 0;
    assert(fs.take(0) =~= Seq::<SocketFamily>::empty());
    assert(rules_view(out@) =~= families_rules(fs.take(0), *n));
    while i < p.deny_socket_families.len()
        invariant
            fs == p.deny_socket_families@,
            i <= fs.len(),
            rules_view(out@) == families_rules(fs.take(i as int), *n),
        decreases fs.len() - i,
    {
        let more = family_rules_exec(p.deny_socket_families[i], n);
        let ghost before = rules_view(out@);
        let mut k: usize = 0;
        while k < more.len()
            invariant
                k <= more.len(),
                rules_view(out@) == before + rules_view(more@).take(k as int),
            decreases more.len() - k,
        {
            let ghost prev = out@;
            out.push(copy_checks(&more[k]));
            proof {
                lemma_rules_push(prev, more@[k as int]);
            }
            assert(rules_view(more@).take(k + 1) =~= rules_view(more@).take(k as int).push(more@[k as int]@));
            assert(rules_view(out@) =~= before + rules_view(more@).take(k + 1));
            k = k + 1;
        }
        assert(rules_view(more@).take(more.len() as int) =~= rules_view(more@));
        assert(fs.take(i + 1).drop_last() =~= fs.take(i as int));
        i = i + 1;
    }
    assert(fs.take(fs.len() as int) =~= fs);
    if p.deny_inet_dgram_raw {
        out.push(vec![check(0, ArgTest::Eq, n.af_inet), check(1, ArgTest::Masked(SOCK_TYPE_MASK), n.sock_dgram)]);
        out.push(vec![check(0, ArgTest::Eq, n.af_inet), check(1, ArgTest::Masked(SOCK_TYPE_MASK), n.sock_raw)]);
        out.push(vec![check(0, ArgTest::Eq, n.af_inet6), check(1, ArgTest::Masked(SOCK_TYPE_MASK), n.sock_dgram)]);
        out.push(vec![check(0, ArgTest::Eq, n.af_inet6), check(1, ArgTest::Masked(SOCK_TYPE_MASK), n.sock_raw)]);
    }
    assert(rules_view(out@) =~= socket_rules(*p, *n));
    out
}

fn userns_rules_exec(n: &ArchNumbers) -> (r: Vec<Vec<ArgCheck>>)
    ensures
        rules_view(r@) == userns_rules(*n),
{
    let mut rule: Vec<ArgCheck> = Vec::new();
    rule.push(check(0, ArgTest::Masked(n.clone_newuser), n.clone_newuser));
    let mut r: Vec<Vec<ArgCheck>> = Vec::new();
    r.push(rule);
    proof {
        lemma_rules_push(Seq::empty(), r@[0]);
        assert(Seq::<Vec<ArgCheck>>::empty().push(r@[0]) =~= r@);
        assert(rules_view(Seq::<Vec<ArgCheck>>::empty()) =~= Seq::<Seq<ArgCheck>>::empty());
    }
    assert(rules_view(r@) =~= userns_rules(*n));
    r
}

/// The rule table for a plan; `Err` names the first deny-listed syscall without a number on this
/// architecture.
pub fn filter_table(p: &SeccompPlan, n: &ArchNumbers) -> (r: Result<Vec<FilterEntry>, String>)
    ensures
        match r {
            Ok(t) => filter_table_of(*p, *n) == Ok::<TableModel, Seq<char>>(table_view(t@)),
            Err(name) => filter_table_of(*p, *n) == Err::<TableModel, Seq<char>>(name@),
        },
{
    let ghost names = strs_view(p.deny_syscalls@);
    let mut t: Vec<FilterEntry> = Vec::new();
    let mut i: usize = 0;
    assert(names.take(0) =~= Seq::<Seq<char>>::empty());
    assert(table_view(t@) =~= Seq::<(i64, RulesModel)>::empty());
    while i < p.deny_syscalls.len()
        invariant
            names == strs_view(p.deny_syscalls@),
            i <= names.len(),
            deny_table(names.take(i as int), n.syscalls@) == Ok::<TableModel, Seq<char>>(table_view(t@)),
        decreases names.len() - i,
    {
        assert(names.take(i + 1).drop_last() =~= names.take(i as int));
        assert(names.take(i + 1).last() == names[i as int]);
        match n.syscalls.get(p.deny_syscalls[i].as_str()) {
            None => {
                proof {
                    lemma_deny_error_sticks(names, i + 1, n.syscalls@);
                }
                return Err(crate::names::copy_string(&p.deny_syscalls[i]));
            },
            Some(nr) => {
                append_rules(&mut t, *nr, Vec::new());
                assert(rules_view(Seq::<Vec<ArgCheck>>::empty()) =~= Seq::<Seq<ArgCheck>>::empty());
            },
        }
        i = i + 1;
    }
    assert(names.take(names.len() as int) =~= names);
    let sock = socket_rules_exec(p, n);
    if sock.len() > 0 {
        append_rules(&mut t, n.sys_socket, sock);
    }
    if p.restrict_userns {
        append_rules(&mut t, n.sys_unshare, userns_rules_exec(n));
        append_rules(&mut t, n.sys_clone, userns_rules_exec(n));
    }
    Ok(t)
}

proof fn lemma_deny_error_sticks(names: Seq<Seq<char>>, k: int, nums: Seq<(Seq<char>, i64)>)
    requires
        0 < k <= names.len(),
        deny_table(names.take(k), nums) is Err,
    ensures
        deny_table(names, nums) == deny_table(names.take(k), nums),
    decreases names.len() - k,
{
    if k < names.len() {
        assert(names.take(k + 1).drop_last() =~= names.take(k));
        lemma_deny_error_sticks(names, k + 1, nums);
    } else {
        assert(names.take(k) =~= names);
    }
}

// ---------------------------------------------------------------------------------------------
// Well-shaped tables

/// Every rule has at least one check, each on an argument index seccomp accepts, and every entry's
/// number fits the 32-bit comparison the program makes.
pub open spec fn rules_shaped(rs: RulesModel) -> bool {
    forall|j: int| 0 <= j < rs.len() ==> #[trigger] rs[j].len() > 0 && forall|k: int| 0 <= k < rs[j].len() ==> (#[trigger] rs[j][k]).arg <= MAX_ARG_INDEX
}

pub open spec fn nr_in_range(nr: i64) -> bool {
    0 <= nr <= u32::MAX
}

pub open spec fn table_shaped(t: TableModel) -> bool {
    forall|i: int| 0 <= i < t.len() ==> nr_in_range(#[trigger] t[i].0) && rules_shaped(t[i].1)
}

/// Every number the table can be built from fits.
pub open spec fn numbers_in_range(n: ArchNumbers) -> bool {
    &&& forall|i: int| 0 <= i < n.syscalls@.len() ==> nr_in_range(#[trigger] n.syscalls@[i].1)
    &&& nr_in_range(n.sys_socket) && nr_in_range(n.sys_unshare) && nr_in_range(n.sys_clone)
}

proof fn lemma_with_rules_shaped(t: TableModel, nr: i64, rules: RulesModel)
    requires
        table_shaped(t),
        nr_in_range(nr),
        rules_shaped(rules),
    ensures
        table_shaped(with_rules(t, nr, rules)),
{
    lemma_index_in_range(t, nr);
    match nr_index(t, nr) {
        Some(i) => {
            let u = with_rules(t, nr, rules);
            assert forall|a: int| 0 <= a < u.len() implies nr_in_range(#[trigger] u[a].0) && rules_shaped(u[a].1) by {
                if a != i {
                    assert(u[a] == t[a]);
                    assert(nr_in_range(t[a].0));
                } else {
                    assert(nr_in_range(t[i].0));
                    let rs = t[i].1 + rules;
                    assert forall|j: int| 0 <= j < rs.len() implies #[trigger] rs[j].len() > 0 && forall|k: int| 0 <= k < rs[j].len() ==> (#[trigger] rs[j][k]).arg <= MAX_ARG_INDEX by {
                        if j < t[i].1.len() {
                            assert(rs[j] == t[i].1[j]);
                        } else {
                            assert(rs[j] == rules[j - t[i].1.len()]);
                        }
                    }
                }
            }
        },
        None => {},
    }
}

proof fn lemma_map_get_in(s: Seq<(Seq<char>, i64)>, k: Seq<char>)
    ensures
        map_get(s, k) matches Some(v) ==> exists|i: int| 0 <= i < s.len() && s[i].1 == v,
    decreases s.len(),
{
    if s.len() > 0 {
        lemma_map_get_in(s.drop_last(), k);
        if s.last().0 != k {
            if let Some(v) = map_get(s.drop_last(), k) {
                let i = choose|i: int| 0 <= i < s.drop_last().len() && s.drop_last()[i].1 == v;
                assert(s[i].1 == v);
            }
        } else {
            assert(s[s.len() - 1].1 == s.last().1);
        }
    }
}

proof fn lemma_deny_table_shaped(names: Seq<Seq<char>>, n: ArchNumbers)
    requires
        numbers_in_range(n),
    ensures
        deny_table(names, n.syscalls@) matches Ok(t) ==> table_shaped(t),
    decreases names.len(),
{
    if names.len() > 0 {
        lemma_deny_table_shaped(names.drop_last(), n);
        lemma_map_get_in(n.syscalls@, names.last());
        match deny_table(names.drop_last(), n.syscalls@) {
            Ok(t) => match map_get(n.syscalls@, names.last()) {
                Some(nr) => {
                    let i = choose|i: int| 0 <= i < n.syscalls@.len() && n.syscalls@[i].1 == nr;
                    assert(nr_in_range(n.syscalls@[i].1));
                    lemma_with_rules_shaped(t, nr, Seq::empty());
                },
                None => {},
            },
            Err(_) => {},
        }
    } else {
        assert(table_shaped(Seq::empty()));
    }
}

proof fn lemma_families_shaped(fs: Seq<SocketFamily>, n: ArchNumbers)
    ensures
        rules_shaped(families_rules(fs, n)),
    decreases fs.len(),
{
    if fs.len() > 0 {
        lemma_families_shaped(fs.drop_last(), n);
        let a = families_rules(fs.drop_last(), n);
        let b = family_rules(fs.last(), n);
        let rs = a + b;
        assert forall|j: int| 0 <= j < rs.len() implies #[trigger] rs[j].len() > 0 && forall|k: int| 0 <= k < rs[j].len() ==> (#[trigger] rs[j][k]).arg <= MAX_ARG_INDEX by {
            if j < a.len() {
                assert(rs[j] == a[j]);
            } else {
                assert(rs[j] == b[j - a.len()]);
            }
        }
    }
}

/// A table built from in-range numbers is well shaped.
pub proof fn lemma_table_shaped(p: SeccompPlan, n: ArchNumbers)
    requires
        numbers_in_range(n),
    ensures
        filter_table_of(p, n) matches Ok(t) ==> table_shaped(t),
{
    lemma_deny_table_shaped(strs_view(p.deny_syscalls@), n);
    if let Ok(t) = deny_table(strs_view(p.deny_syscalls@), n.syscalls@) {
        lemma_families_shaped(p.deny_socket_families@, n);
        let a = families_rules(p.deny_socket_families@, n);
        let b = if p.deny_inet_dgram_raw { dgram_raw_rules(n) } else { Seq::empty() };
        let sock = socket_rules(p, n);
        assert forall|j: int| 0 <= j < sock.len() implies #[trigger] sock[j].len() > 0 && forall|k: int| 0 <= k < sock[j].len() ==> (#[trigger] sock[j][k]).arg <= MAX_ARG_INDEX by {
            if j < a.len() {
                assert(sock[j] == a[j]);
            } else {
                assert(sock[j] == b[j - a.len()]);
            }
        }
        let t1 = if sock.len() > 0 { with_rules(t, n.sys_socket, sock) } else { t };
        if sock.len() > 0 {
            lemma_with_rules_shaped(t, n.sys_socket, sock);
        }
        if p.restrict_userns {
            let u = userns_rules(n);
            assert(rules_shaped(u));
            lemma_with_rules_shaped(t1, n.sys_unshare, u);
            lemma_with_rules_shaped(with_rules(t1, n.sys_unshare, u), n.sys_clone, u);
        }
    }
}

// ---------------------------------------------------------------------------------------------
// Compiling the table

/// The checks a seccompiler rule holds, one `ArgCheck` standing for each of its conditions.
pub uninterp spec fn rule_checks(r: seccompiler::SeccompRule) -> Seq<ArgCheck>;

/// The table a list of `(number, rules)` pairs stands for.
pub open spec fn checks_table(rules: Seq<(i64, Vec<seccompiler::SeccompRule>)>) -> TableModel {
    rules.map_values(|e: (i64, Vec<seccompiler::SeccompRule>)| (e.0, e.1@.map_values(|r: seccompiler::SeccompRule| rule_checks(r))))
}

/// The BPF program seccompiler compiles for `table` on `arch`: unmatched syscalls allowed, a call
/// matching an entry failing with `eperm`, each instruction as `(code, jt, jf, k)`; `None` where
/// seccompiler refuses the filter.
pub uninterp spec fn bpf_program(table: TableModel, arch: Seq<char>, eperm: u32) -> Option<Seq<(u16, u8, u8, u32)>>;

/// `SeccompRule::new` over a 32-bit `SeccompCondition::new` for each check. Its source refuses
/// only an argument index above five and an empty condition list.
#[verifier::external_body]
fn new_rule(checks: &[ArgCheck]) -> (r: Result<seccompiler::SeccompRule, seccompiler::BackendError>)
    ensures
        r is Ok <==> checks@.len() > 0 && forall|k: int| 0 <= k < checks@.len() ==> (#[trigger] checks@[k]).arg <= MAX_ARG_INDEX,
        r matches Ok(x) ==> rule_checks(x) == checks@,
{
    let op = |t: ArgTest| match t {
        ArgTest::Eq => SeccompCmpOp::Eq,
        ArgTest::Ne => SeccompCmpOp::Ne,
        ArgTest::Masked(m) => SeccompCmpOp::MaskedEq(m),
    };
    let conds = checks.iter().map(|c| SeccompCondition::new(c.arg, SeccompCmpArgLen::Dword, op(c.test), c.value));
    SeccompRule::new(conds.collect::<Result<_, _>>()?)
}

/// `SeccompFilter::new` over the map collected from `rules` (mismatch `Allow`, match
/// `Errno(eperm)`, arch `TargetArch::try_from(arch)`), compiled by `BpfProgram::try_from`; each
/// instruction is returned field by field. Its source panics on a syscall number outside `u32`,
/// which `requires` leaves out. The contract names the program.
#[verifier::external_body]
fn compile_program(rules: Vec<(i64, Vec<seccompiler::SeccompRule>)>, arch: &str, eperm: u32) -> (r: Result<Vec<(u16, u8, u8, u32)>, seccompiler::BackendError>)
    requires
        forall|i: int| 0 <= i < rules@.len() ==> nr_in_range(#[trigger] rules@[i].0),
    ensures
        match r {
            Ok(p) => bpf_program(checks_table(rules@), arch@, eperm) == Some(p@),
            Err(_) => bpf_program(checks_table(rules@), arch@, eperm) is None,
        },
{
    let on_match = SeccompAction::Errno(eperm);
    let f = SeccompFilter::new(rules.into_iter().collect(), SeccompAction::Allow, on_match, TargetArch::try_from(arch)?)?;
    Ok(BpfProgram::try_from(f)?.iter().map(|s| (s.code, s.jt, s.jf, s.k)).collect())
}

/// `TargetArch::try_from(&str)`. Its source accepts `x86_64`, `aarch64` and `riscv64` (compared
/// after lowercasing); what other spellings give is not stated here.
#[verifier::external_body]
fn target_arch(name: &str) -> (r: Result<seccompiler::TargetArch, seccompiler::BackendError>)
    ensures
        known_arch(name@) ==> r is Ok,
{
    seccompiler::TargetArch::try_from(name)
}

/// seccompiler's `Display` for its errors; the text is not stated here.
#[verifier::external_body]
fn backend_error_text(e: &seccompiler::BackendError) -> String {
    format!("{e}")
}

pub open spec fn known_arch(a: Seq<char>) -> bool {
    a == "x86_64"@ || a == "aarch64"@ || a == "riscv64"@
}

pub open spec fn missing_number_text(name: Seq<char>) -> Seq<char> {
    "seccomp baseline syscall "@ + debug_quoted(name) + " has no number on this arch; refusing a silently-weakened filter"@
}

pub open spec fn unsupported_arch_text(arch: Seq<char>) -> Seq<char> {
    "seccomp: unsupported arch "@ + arch
}

/// Compiles a plan into the BPF program the child installs, each instruction as
/// `(code, jt, jf, k)`: syscalls outside the table are allowed, a matching call fails with
/// `EPERM`. A deny-listed syscall without a number on this architecture refuses the filter rather
/// than weakening it.
pub fn build(plan: &SeccompPlan, nums: &ArchNumbers, arch: &str) -> (r: Result<Vec<(u16, u8, u8, u32)>, ConfineError>)
    requires
        numbers_in_range(*nums),
    ensures
        match filter_table_of(*plan, *nums) {
            Err(name) => r matches Err(ConfineError::MechanismFailed(m)) && m@ == missing_number_text(name),
            Ok(t) => match r {
                Ok(p) => bpf_program(t, arch@, nums.eperm) == Some(p@),
                Err(ConfineError::MechanismFailed(m)) => {
                    ||| (!known_arch(arch@) && m@ == unsupported_arch_text(arch@))
                    ||| (bpf_program(t, arch@, nums.eperm) is None && starts_with(m@, "seccomp bpf compile: "@))
                },
                Err(_) => false,
            },
        },
{
    let table = match filter_table(plan, nums) {
        Err(name) => {
            let mut m = String::new();
            push_str(&mut m, "seccomp baseline syscall ");
            let q = debug_str(name.as_str());
            push_str(&mut m, q.as_str());
            push_str(&mut m, " has no number on this arch; refusing a silently-weakened filter");
            return Err(ConfineError::MechanismFailed(m));
        },
        Ok(t) => t,
    };
    let ghost tv = table_view(table@);
    proof {
        lemma_table_shaped(*plan, *nums);
    }
    let mut rules: Vec<(i64, Vec<seccompiler::SeccompRule>)> = Vec::new();
    let mut i: usize = 0;
    while i < table.len()
        invariant
            tv == table_view(table@),
            table_shaped(tv),
            i <= table.len(),
            rules@.len() == i,
            forall|a: int| 0 <= a < i ==> (#[trigger] checks_table(rules@)[a]) == tv[a],
        decreases table.len() - i,
    {
        let ghost rs = tv[i as int].1;
        assert(nr_in_range(tv[i as int].0));
        assert(rules_shaped(rs));
        let mut chain: Vec<seccompiler::SeccompRule> = Vec::new();
        let mut j: usize = 0;
        while j < table[i].rules.len()
            invariant
                tv == table_view(table@),
                i < table.len(),
                rs == tv[i as int].1,
                rules_shaped(rs),
                j <= table[i as int].rules@.len(),
                rs.len() == table[i as int].rules@.len(),
                chain@.len() == j,
                forall|b: int| 0 <= b < j ==> rule_checks(#[trigger] chain@[b]) == rs[b],
            decreases table[i as int].rules@.len() - j,
        {
            assert(rs[j as int] == table[i as int].rules@[j as int]@);
            match new_rule(table[i].rules[j].as_slice()) {
                Ok(r) => chain.push(r),
                Err(e) => return Err(failed("seccomp rule: ", &e)),
            }
            j = j + 1;
        }
        let ghost cv = chain@;
        assert(cv.map_values(|r: seccompiler::SeccompRule| rule_checks(r)) =~= rs);
        let ghost before = rules@;
        assert(tv[i as int].0 == table[i as int].nr);
        rules.push((table[i].nr, chain));
        assert forall|a: int| 0 <= a <= i implies (#[trigger] checks_table(rules@)[a]) == tv[a] by {
            if a < i {
                assert(rules@[a] == before[a]);
                assert(checks_table(before)[a] == tv[a]);
            } else {
                assert(rules@[a].1@ == cv);
            }
        }
        i = i + 1;
    }
    assert(checks_table(rules@) =~= tv);
    assert forall|a: int| 0 <= a < rules@.len() implies nr_in_range(#[trigger] rules@[a].0) by {
        assert(checks_table(rules@)[a].0 == rules@[a].0);
    }
    if target_arch(arch).is_err() {
        let mut m = String::new();
        push_str(&mut m, "seccomp: unsupported arch ");
        push_str(&mut m, arch);
        return Err(ConfineError::MechanismFailed(m));
    }
    match compile_program(rules, arch, nums.eperm) {
        Err(e) => Err(failed("seccomp bpf compile: ", &e)),
        Ok(p) => Ok(p),
    }
}

fn failed(prefix: &str, e: &seccompiler::BackendError) -> (r: ConfineError)
    ensures
        r matches ConfineError::MechanismFailed(m) && starts_with(m@, prefix@),
{
    let mut m = String::new();
    push_str(&mut m, prefix);
    let t = backend_error_text(e);
    push_str(&mut m, t.as_str());
    assert(m@.take(prefix@.len() as int) =~= prefix@);
    ConfineError::MechanismFailed(m)
}

// ---------------------------------------------------------------------------------------------
// Laws

/// A rule cannot match a `socket(2)` call in `domain`: one of its checks compares argument zero
/// for equality with another value.
pub open spec fn rule_misses_domain(rule: Seq<ArgCheck>, domain: u64) -> bool {
    exists|k: int| 0 <= k < rule.len() && (#[trigger] rule[k]).arg == 0 && rule[k].test == ArgTest::Eq && rule[k].value != domain
}

proof fn lemma_families_miss(fs: Seq<SocketFamily>, n: ArchNumbers, domain: u64)
    requires
        domain != n.af_inet && domain != n.af_inet6 && domain != n.af_packet && domain != n.af_netlink,
    ensures
        forall|j: int| 0 <= j < families_rules(fs, n).len() ==> rule_misses_domain(#[trigger] families_rules(fs, n)[j], domain),
    decreases fs.len(),
{
    if fs.len() > 0 {
        lemma_families_miss(fs.drop_last(), n, domain);
        let a = families_rules(fs.drop_last(), n);
        let b = family_rules(fs.last(), n);
        assert(rule_misses_domain(b[0], domain)) by {
            assert(b[0][0].arg == 0);
        }
        assert forall|j: int| 0 <= j < (a + b).len() implies rule_misses_domain(#[trigger] (a + b)[j], domain) by {
            if j < a.len() {
                assert((a + b)[j] == a[j]);
            } else {
                assert((a + b)[j] == b[0]);
            }
        }
    }
}

/// Socket creation is governed per family: every socket rule checks the domain argument against
/// one of the governed families, so a socket in any other domain (AF_UNIX, which the
/// injected-descriptor seam rides on) matches no rule and is allowed.
pub proof fn other_domains_pass_the_socket_rules(p: SeccompPlan, n: ArchNumbers, domain: u64)
    requires
        domain != n.af_inet && domain != n.af_inet6 && domain != n.af_packet && domain != n.af_netlink,
    ensures
        forall|j: int| 0 <= j < socket_rules(p, n).len() ==> rule_misses_domain(#[trigger] socket_rules(p, n)[j], domain),
{
    lemma_families_miss(p.deny_socket_families@, n, domain);
    let a = families_rules(p.deny_socket_families@, n);
    let b = if p.deny_inet_dgram_raw { dgram_raw_rules(n) } else { Seq::empty() };
    assert forall|j: int| 0 <= j < (a + b).len() implies rule_misses_domain(#[trigger] (a + b)[j], domain) by {
        if j < a.len() {
            assert((a + b)[j] == a[j]);
        } else {
            let r = (a + b)[j];
            assert(r == b[j - a.len()]);
            assert(r[0].arg == 0);
        }
    }
}

proof fn lemma_with_rules_keeps(t: TableModel, nr: i64, rules: RulesModel, m: i64)
    ensures
        (exists|i: int| 0 <= i < t.len() && t[i].0 == m) ==> exists|i: int| 0 <= i < with_rules(t, nr, rules).len() && #[trigger] with_rules(t, nr, rules)[i].0 == m,
        exists|i: int| 0 <= i < with_rules(t, nr, rules).len() && #[trigger] with_rules(t, nr, rules)[i].0 == nr,
{
    lemma_index_in_range(t, nr);
    let u = with_rules(t, nr, rules);
    if exists|i: int| 0 <= i < t.len() && t[i].0 == m {
        let i = choose|i: int| 0 <= i < t.len() && t[i].0 == m;
        assert(u[i].0 == m);
    }
    match nr_index(t, nr) {
        Some(i) => assert(u[i].0 == nr),
        None => assert(u[t.len() as int].0 == nr),
    }
}

/// `name` has a number on this architecture and the table an entry under it.
pub open spec fn has_entry(t: TableModel, nums: Seq<(Seq<char>, i64)>, name: Seq<char>) -> bool {
    match map_get(nums, name) {
        Some(nr) => exists|i: int| 0 <= i < t.len() && t[i].0 == nr,
        None => false,
    }
}

proof fn lemma_deny_table_covers(names: Seq<Seq<char>>, nums: Seq<(Seq<char>, i64)>)
    ensures
        deny_table(names, nums) is Ok ==> forall|q: int| 0 <= q < names.len() ==> has_entry(deny_table(names, nums)->Ok_0, nums, #[trigger] names[q]),
    decreases names.len(),
{
    if names.len() > 0 {
        let init = names.drop_last();
        lemma_deny_table_covers(init, nums);
        if let Ok(t0) = deny_table(init, nums) {
            if let Some(nr) = map_get(nums, names.last()) {
                let t = with_rules(t0, nr, Seq::empty());
                assert(deny_table(names, nums) == Ok::<TableModel, Seq<char>>(t));
                assert forall|q: int| 0 <= q < names.len() implies has_entry(t, nums, #[trigger] names[q]) by {
                    if q < init.len() {
                        assert(names[q] == init[q]);
                        assert(has_entry(t0, nums, init[q]));
                        let m = map_get(nums, init[q])->0;
                        lemma_with_rules_keeps(t0, nr, Seq::empty(), m);
                    } else {
                        lemma_with_rules_keeps(t0, nr, Seq::empty(), nr);
                    }
                }
            }
        }
    }
}

/// Every deny-listed syscall reaches the filter: when the table builds, each name has a number on
/// this architecture and an entry under that number.
pub proof fn every_listed_syscall_has_an_entry(p: SeccompPlan, n: ArchNumbers)
    ensures
        filter_table_of(p, n) is Ok ==> forall|q: int| 0 <= q < p.deny_syscalls@.len() ==> has_entry(filter_table_of(p, n)->Ok_0, n.syscalls@, #[trigger] p.deny_syscalls@[q]@),
{
    let names = strs_view(p.deny_syscalls@);
    lemma_deny_table_covers(names, n.syscalls@);
    if let Ok(t0) = deny_table(names, n.syscalls@) {
        let sock = socket_rules(p, n);
        let t1 = if sock.len() > 0 { with_rules(t0, n.sys_socket, sock) } else { t0 };
        let t = filter_table_of(p, n)->Ok_0;
        assert forall|q: int| 0 <= q < p.deny_syscalls@.len() implies has_entry(t, n.syscalls@, #[trigger] p.deny_syscalls@[q]@) by {
            assert(names[q] == p.deny_syscalls@[q]@);
            assert(has_entry(t0, n.syscalls@, names[q]));
            let m = map_get(n.syscalls@, names[q])->0;
            lemma_with_rules_keeps(t0, n.sys_socket, sock, m);
            if p.restrict_userns {
                let u = userns_rules(n);
                lemma_with_rules_keeps(t1, n.sys_unshare, u, m);
                lemma_with_rules_keeps(with_rules(t1, n.sys_unshare, u), n.sys_clone, u, m);
            }
        }
    }
}

} // verus!
