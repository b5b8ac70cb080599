//! Data-access declarations of systems and the conflict relation between them.
//!
//! A component or resource type is named by a `u64` type key; two declared
//! accesses conflict when they name the same key and at least one of them
//! writes.
use std::collections::HashSet;
use vstd::prelude::*;

verus! {

broadcast use vstd::std_specs::hash::group_hash_axioms;

/// How a system touches a component or a resource.
#[derive(Debug, Clone, Copy, PartialEq, Eq, Structural)]
pub enum AccessType {
    /// Read-only access.
    Read,
    /// Read-write access.
    Write,
}

/// A single data dependency of a system: which type, and how it is used.
#[derive(Debug, Clone, Copy, PartialEq, Eq, Structural)]
pub struct DataAccess {
    /// The key of the component or resource type.
    pub type_id: u64,
    /// How the system accesses this data.
    pub access_type: AccessType,
}

/// Two accesses conflict when they name the same type and one of them writes.
pub open spec fn data_conflict(a: DataAccess, b: DataAccess) -> bool {
    a.type_id == b.type_id && (a.access_type == AccessType::Write || b.access_type
        == AccessType::Write)
}

/// Some access of `xs` conflicts with some access of `ys`.
pub open spec fn lists_conflict(xs: Seq<DataAccess>, ys: Seq<DataAccess>) -> bool {
    exists|i: int, j: int|
        0 <= i < xs.len() && 0 <= j < ys.len() && #[trigger] data_conflict(xs[i], ys[j])
}

/// The keys written by some access of `xs`.
pub open spec fn written_keys(xs: Seq<DataAccess>) -> Set<u64> {
    Set::new(
        |k: u64|
            exists|i: int|
                0 <= i < xs.len() && (#[trigger] xs[i]).type_id == k && xs[i].access_type
                    == AccessType::Write,
    )
}

impl DataAccess {
    /// Creates an access of the given type key and kind.
    pub fn new(type_id: u64, access_type: AccessType) -> (r: Self)
        ensures
            r.type_id == type_id,
            r.access_type == access_type,
    {
        DataAccess { type_id, access_type }
    }

    /// Creates a read-only access.
    pub fn read(type_id: u64) -> (r: Self)
        ensures
            r.type_id == type_id,
            r.access_type == AccessType::Read,
    {
        DataAccess { type_id, access_type: AccessType::Read }
    }

    /// Creates a read-write access.
    pub fn write(type_id: u64) -> (r: Self)
        ensures
            r.type_id == type_id,
            r.access_type == AccessType::Write,
    {
        DataAccess { type_id, access_type: AccessType::Write }
    }

    /// Whether this access conflicts with `other`.
    pub fn conflicts_with(&self, other: &DataAccess) -> (r: bool)
        ensures
            r == data_conflict(*self, *other),
    {
        self.type_id == other.type_id && (self.access_type == AccessType::Write
            || other.access_type == AccessType::Write)
    }
}

/// Conflict between two accesses does not depend on their order.
pub proof fn lemma_data_conflict_symmetric(a: DataAccess, b: DataAccess)
    ensures
        data_conflict(a, b) == data_conflict(b, a),
{
}

/// Two reads never conflict, whatever they name.
pub proof fn lemma_reads_never_conflict(a: DataAccess, b: DataAccess)
    requires
        a.access_type == AccessType::Read,
        b.access_type == AccessType::Read,
    ensures
        !data_conflict(a, b),
{
}

/// All component and resource dependencies of one system.
#[derive(Debug, Clone)]
pub struct SystemAccess {
    /// Component dependencies.
    pub component_access: Vec<DataAccess>,
    /// Resource dependencies.
    pub resource_access: Vec<DataAccess>,
}

/// Two systems conflict when their component accesses or their resource
/// accesses conflict.
pub open spec fn system_conflict(a: SystemAccess, b: SystemAccess) -> bool {
    lists_conflict(a.component_access@, b.component_access@) || lists_conflict(
        a.resource_access@,
        b.resource_access@,
    )
}

/// Whether some access of `xs` conflicts with some access of `ys`.
fn any_conflict(xs: &Vec<DataAccess>, ys: &Vec<DataAccess>) -> (r: bool)
    ensures
        r == lists_conflict(xs@, ys@),
{
    let mut i: usize = 0;
    while i < xs.len()
        invariant
            i <= xs.len(),
            forall|a: int, b: int|
                0 <= a < i && 0 <= b < ys@.len() ==> !#[trigger] data_conflict(xs@[a], ys@[b]),
        decreases xs.len() - i,
    {
        let mut j: usize = 0;
        while j < ys.len()
            invariant
                i < xs.len(),
                j <= ys.len(),
                forall|a: int, b: int|
                    0 <= a < i && 0 <= b < ys@.len() ==> !#[trigger] data_conflict(
                        xs@[a],
                        ys@[b],
                    ),
                forall|b: int| 0 <= b < j ==> !#[trigger] data_conflict(xs@[i as int], ys@[b]),
            decreases ys.len() - j,
        {
            if xs[i].conflicts_with(&ys[j]) {
                return true;
            }
            j = j + 1;
        }
        i = i + 1;
    }
    false
}

/// The set of keys written by the accesses of `xs`.
fn writes_of(xs: &Vec<DataAccess>) -> (r: HashSet<u64>)
    ensures
        r@ == written_keys(xs@),
{
    let mut out: HashSet<u64> = HashSet::new();
    let mut i: usize = 0;
    while i < xs.len()
        invariant
            i <= xs.len(),
            out@ == written_keys(xs@.subrange(0, i as int)),
        decreases xs.len() - i,
    {
        let a = xs[i];
        proof {
            let s0 = xs@.subrange(0, i as int);
            let s1 = xs@.subrange(0, i as int + 1);
            assert forall|k: u64| #[trigger] written_keys(s1).contains(k) <==> (written_keys(
                s0,
            ).contains(k) || (a.access_type == AccessType::Write && a.type_id == k)) by {
                if written_keys(s1).contains(k) {
                    let t = choose|t: int|
                        0 <= t < s1.len() && (#[trigger] s1[t]).type_id == k && s1[t].access_type
                            == AccessType::Write;
                    if t < i {
                        assert(s0[t] == s1[t]);
                    }
                }
                if written_keys(s0).contains(k) {
                    let t = choose|t: int|
                        0 <= t < s0.len() && (#[trigger] s0[t]).type_id == k && s0[t].access_type
                            == AccessType::Write;
                    assert(s1[t] == s0[t]);
                }
                if a.access_type == AccessType::Write && a.type_id == k {
                    assert(s1[i as int] == a);
                }
            }
        }
        if a.access_type == AccessType::Write {
            out.insert(a.type_id);
        }
        i = i + 1;
        proof {
            assert(out@ =~= written_keys(xs@.subrange(0, i as int)));
        }
    }
    assert(xs@.subrange(0, xs.len() as int) =~= xs@);
    out
}

impl SystemAccess {
    /// Creates a system access with no dependencies.
    pub fn new() -> (r: Self)
        ensures
            r.component_access@ == Seq::<DataAccess>::empty(),
            r.resource_access@ == Seq::<DataAccess>::empty(),
    {
        SystemAccess { component_access: Vec::new(), resource_access: Vec::new() }
    }

    /// Adds a component access.
    pub fn with_component(self, type_id: u64, access_type: AccessType) -> (r: Self)
        ensures
            r.component_access@ == self.component_access@.push(
                DataAccess { type_id, access_type },
            ),
            r.resource_access@ == self.resource_access@,
    {
        let mut s = self;
        s.component_access.push(DataAccess::new(type_id, access_type));
        s
    }

    /// Adds a resource access.
    pub fn with_resource(self, type_id: u64, access_type: AccessType) -> (r: Self)
        ensures
            r.resource_access@ == self.resource_access@.push(
                DataAccess { type_id, access_type },
            ),
            r.component_access@ == self.component_access@,
    {
        let mut s = self;
        s.resource_access.push(DataAccess::new(type_id, access_type));
        s
    }

    /// Adds the accesses of `other` after this system's own, as a system
    /// whose parameters have both sets of accesses declares them.
    pub fn combine(self, other: SystemAccess) -> (r: Self)
        ensures
            r.component_access@ == self.component_access@ + other.component_access@,
            r.resource_access@ == self.resource_access@ + other.resource_access@,
    {
        let mut s = self;
        let mut o = other;
        s.component_access.append(&mut o.component_access);
        s.resource_access.append(&mut o.resource_access);
        s
    }

    /// Whether this system's access conflicts with another system's access.
    pub fn conflicts_with(&self, other: &SystemAccess) -> (r: bool)
        ensures
            r == system_conflict(*self, *other),
    {
        if any_conflict(&self.component_access, &other.component_access) {
            return true;
        }
        any_conflict(&self.resource_access, &other.resource_access)
    }

    /// The keys of all components this system writes.
    pub fn component_writes(&self) -> (r: HashSet<u64>)
        ensures
            r@ == written_keys(self.component_access@),
    {
        writes_of(&self.component_access)
    }

    /// The keys of all resources this system writes.
    pub fn resource_writes(&self) -> (r: HashSet<u64>)
        ensures
            r@ == written_keys(self.resource_access@),
    {
        writes_of(&self.resource_access)
    }
}

/// Conflict between two systems does not depend on which one is asked.
pub proof fn lemma_system_conflict_symmetric(a: SystemAccess, b: SystemAccess)
    ensures
        system_conflict(a, b) == system_conflict(b, a),
{
    if lists_conflict(a.component_access@, b.component_access@) {
        let (i, j) = choose|i: int, j: int|
            0 <= i < a.component_access@.len() && 0 <= j < b.component_access@.len()
                && #[trigger] data_conflict(a.component_access@[i], b.component_access@[j]);
        assert(data_conflict(b.component_access@[j], a.component_access@[i]));
    }
    if lists_conflict(b.component_access@, a.component_access@) {
        let (i, j) = choose|i: int, j: int|
            0 <= i < b.component_access@.len() && 0 <= j < a.component_access@.len()
                && #[trigger] data_conflict(b.component_access@[i], a.component_access@[j]);
        assert(data_conflict(a.component_access@[j], b.component_access@[i]));
    }
    if lists_conflict(a.resource_access@, b.resource_access@) {
        let (i, j) = choose|i: int, j: int|
            0 <= i < a.resource_access@.len() && 0 <= j < b.resource_access@.len()
                && #[trigger] data_conflict(a.resource_access@[i], b.resource_access@[j]);
        assert(data_conflict(b.resource_access@[j], a.resource_access@[i]));
    }
    if lists_conflict(b.resource_access@, a.resource_access@) {
        let (i, j) = choose|i: int, j: int|
            0 <= i < b.resource_access@.len() && 0 <= j < a.resource_access@.len()
                && #[trigger] data_conflict(b.resource_access@[i], a.resource_access@[j]);
        assert(data_conflict(a.resource_access@[j], b.resource_access@[i]));
    }
}

/// Some access of `xs + ys` conflicts with some access of `zs` exactly when
/// one of `xs` or one of `ys` does.
proof fn lemma_lists_conflict_concat(xs: Seq<DataAccess>, ys: Seq<DataAccess>, zs: Seq<DataAccess>)
    ensures
        lists_conflict(xs + ys, zs) <==> (lists_conflict(xs, zs) || lists_conflict(ys, zs)),
{
    let c = xs + ys;
    if lists_conflict(c, zs) {
        let (i, j) = choose|i: int, j: int| 0 <= i < c.len() && 0 <= j < zs.len() && #[trigger] data_conflict(c[i], zs[j]);
        if i < xs.len() {
            assert(data_conflict(xs[i], zs[j]));
        } else {
            assert(data_conflict(ys[i - xs.len()], zs[j]));
        }
    }
    if lists_conflict(xs, zs) {
        let (i, j) = choose|i: int, j: int| 0 <= i < xs.len() && 0 <= j < zs.len() && #[trigger] data_conflict(xs[i], zs[j]);
        assert(data_conflict(c[i], zs[j]));
    }
    if lists_conflict(ys, zs) {
        let (i, j) = choose|i: int, j: int| 0 <= i < ys.len() && 0 <= j < zs.len() && #[trigger] data_conflict(ys[i], zs[j]);
        assert(data_conflict(c[i + xs.len()], zs[j]));
    }
}

/// A system that declares the accesses of two parameters together conflicts
/// with a third system exactly when one of the parameters does.
pub proof fn lemma_combined_conflict(a: SystemAccess, b: SystemAccess, combined: SystemAccess, other: SystemAccess)
    requires
        combined.component_access@ == a.component_access@ + b.component_access@,
        combined.resource_access@ == a.resource_access@ + b.resource_access@,
    ensures
        system_conflict(combined, other) <==> (system_conflict(a, other) || system_conflict(b, other)),
{
    lemma_lists_conflict_concat(a.component_access@, b.component_access@, other.component_access@);
    lemma_lists_conflict_concat(a.resource_access@, b.resource_access@, other.resource_access@);
}

/// A system that only reads never conflicts with another system that only
/// reads.
pub proof fn lemma_read_only_systems_never_conflict(a: SystemAccess, b: SystemAccess)
    requires
        forall|i: int|
            0 <= i < a.component_access@.len() ==> (#[trigger] a.component_access@[i]).access_type
                == AccessType::Read,
        forall|i: int|
            0 <= i < a.resource_access@.len() ==> (#[trigger] a.resource_access@[i]).access_type
                == AccessType::Read,
        forall|i: int|
            0 <= i < b.component_access@.len() ==> (#[trigger] b.component_access@[i]).access_type
                == AccessType::Read,
        forall|i: int|
            0 <= i < b.resource_access@.len() ==> (#[trigger] b.resource_access@[i]).access_type
                == AccessType::Read,
    ensures
        !system_conflict(a, b),
{
}

} // verus!
