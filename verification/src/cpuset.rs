//! The cpuset controller: range-list encoding, version gating, and
//! property-map updates.
//!
//! `to_bitmask` turns a range list into the byte mask systemd expects for
//! the `AllowedCPUs` and `AllowedMemoryNodes` properties. `CpuSet` conditions the
//! restriction on the reported systemd version and writes the encoded masks
//! into a caller-supplied property map.

use vstd::prelude::*;

verus! {

use vstd::std_specs::iter::IteratorSpec;

use crate::mask::{BitMask, is_be_encoding, le_bit};
use crate::ranges::{ParseError, lemma_pairs_set_push, pairs_set, parse_chars, spec_mask};

/// The property key for the CPU mask.
pub open spec fn cpus_key() -> Seq<char> {
    "AllowedCPUs"@
}

/// The property key for the memory-node mask.
pub open spec fn nodes_key() -> Seq<char> {
    "AllowedMemoryNodes"@
}

/// Collects the characters of a string slice.
fn chars_of(s: &str) -> (r: Vec<char>)
    ensures
        r@ == s@,
{
    let mut it = s.chars();
    let mut v: Vec<char> = Vec::new();
    proof {
        assert(v@ + it.remaining() =~= s@);
    }
    loop
        invariant
            it.decrease() is Some,
            v@ + it.remaining() =~= s@,
        decreases it.decrease().unwrap(),
    {
        match it.next() {
            Some(c) => {
                v.push(c);
                proof {
                    assert(v@ + it.remaining() =~= s@);
                }
            },
            None => {
                proof {
                    assert(v@ =~= s@);
                }
                return v;
            },
        }
    }
}

/// Encodes a range list as the minimal big-endian byte mask: bit `k` of the
/// result is set exactly when index `k` is named by the list, and the first
/// byte of a non-empty result is non-zero. systemd silently ignores a mask
/// with leading zero bytes, so the stripping is part of the contract.
pub fn to_bitmask(range: &str) -> (r: Result<Vec<u8>, ParseError>)
    ensures
        ({
            match r {
                Ok(v) => spec_mask(range@) is Ok && is_be_encoding(v@, spec_mask(range@)->Ok_0),
                Err(e) => spec_mask(range@) == Err::<Set<int>, ParseError>(e),
            }
        }),
{
    let chars = chars_of(range);
    let pairs = match parse_chars(&chars) {
        Ok(p) => p,
        Err(e) => {
            return Err(e);
        },
    };
    let mut mask = BitMask::new();
    let mut i: usize = 0;
    while i < pairs.len()
        invariant
            i <= pairs@.len(),
            forall|x: int| 0 <= x < pairs@.len() ==> (#[trigger] pairs@[x]).0 <= pairs@[x].1,
            forall|k: int|
                le_bit(mask@, k) <==> pairs_set(pairs@.take(i as int)).contains(k),
        decreases pairs@.len() - i,
    {
        let p = pairs[i];
        let ghost m0 = mask@;
        mask.set_range(p.0, p.1);
        proof {
            lemma_pairs_set_push(pairs@.take(i as int), p);
            assert(pairs@.take(i + 1) =~= pairs@.take(i as int).push(p));
            assert forall|k: int|
                le_bit(mask@, k) <==> pairs_set(pairs@.take(i + 1)).contains(k) by {
                assert(le_bit(mask@, k) <==> (le_bit(m0, k) || (p.0 <= k <= p.1)));
            }
        }
        i = i + 1;
    }
    proof {
        assert(pairs@.take(pairs@.len() as int) =~= pairs@);
    }
    let out = mask.into_bytes();
    Ok(out)
}

spec fn entries_map(es: Seq<(String, Vec<u8>)>) -> Map<Seq<char>, Seq<u8>>
    decreases es.len(),
{
    if es.len() == 0 {
        Map::empty()
    } else {
        entries_map(es.drop_last()).insert(es.last().0@, es.last().1@)
    }
}

spec fn distinct_keys(es: Seq<(String, Vec<u8>)>) -> bool {
    forall|a: int, b: int| 0 <= a < b < es.len() ==> (#[trigger] es[a]).0@ != (#[trigger] es[b]).0@
}

proof fn lemma_entries_map_contains(es: Seq<(String, Vec<u8>)>, q: Seq<char>)
    ensures
        entries_map(es).contains_key(q) <==> exists|i: int|
            0 <= i < es.len() && (#[trigger] es[i]).0@ == q,
    decreases es.len(),
{
    if es.len() > 0 {
        lemma_entries_map_contains(es.drop_last(), q);
        if es.last().0@ == q {
            assert(es[es.len() - 1].0@ == q);
        } else if entries_map(es.drop_last()).contains_key(q) {
            let i = choose|i: int|
                0 <= i < es.drop_last().len() && (#[trigger] es.drop_last()[i]).0@ == q;
            assert(es[i].0@ == q);
        } else if exists|i: int| 0 <= i < es.len() && (#[trigger] es[i]).0@ == q {
            let i = choose|i: int| 0 <= i < es.len() && (#[trigger] es[i]).0@ == q;
            assert(i < es.len() - 1);
            assert(es.drop_last()[i].0@ == q);
        }
    }
}

proof fn lemma_entries_map_get(es: Seq<(String, Vec<u8>)>, i: int)
    requires
        distinct_keys(es),
        0 <= i < es.len(),
    ensures
        entries_map(es).contains_key(es[i].0@),
        entries_map(es)[es[i].0@] == es[i].1@,
    decreases es.len(),
{
    if i == es.len() - 1 {
    } else {
        assert(es.drop_last()[i] == es[i]);
        lemma_entries_map_get(es.drop_last(), i);
        assert(es[es.len() - 1].0@ != es[i].0@);
    }
}

proof fn lemma_entries_map_len(es: Seq<(String, Vec<u8>)>)
    requires
        distinct_keys(es),
    ensures
        entries_map(es).dom().finite(),
        entries_map(es).dom().len() == es.len(),
    decreases es.len(),
{
    if es.len() > 0 {
        lemma_entries_map_len(es.drop_last());
        lemma_entries_map_contains(es.drop_last(), es.last().0@);
        assert(forall|i: int|
            0 <= i < es.drop_last().len() ==> (#[trigger] es.drop_last()[i]).0@ != es.last().0@);
        assert(!entries_map(es.drop_last()).contains_key(es.last().0@));
    }
}

proof fn lemma_entries_map_update(es: Seq<(String, Vec<u8>)>, i: int, p: (String, Vec<u8>))
    requires
        distinct_keys(es),
        0 <= i < es.len(),
        p.0@ == es[i].0@,
    ensures
        entries_map(es.update(i, p)) == entries_map(es).insert(p.0@, p.1@),
    decreases es.len(),
{
    if i == es.len() - 1 {
        assert(es.update(i, p).drop_last() =~= es.drop_last());
        assert(es.update(i, p).last() == p);
        assert(entries_map(es.drop_last()).insert(es.last().0@, es.last().1@).insert(p.0@, p.1@)
            =~= entries_map(es.drop_last()).insert(p.0@, p.1@));
    } else {
        assert(es.update(i, p).drop_last() =~= es.drop_last().update(i, p));
        assert(es.update(i, p).last() == es.last());
        assert(es.drop_last()[i] == es[i]);
        lemma_entries_map_update(es.drop_last(), i, p);
        assert(es.last().0@ != p.0@);
        assert(entries_map(es.drop_last()).insert(p.0@, p.1@).insert(es.last().0@, es.last().1@)
            =~= entries_map(es.drop_last()).insert(es.last().0@, es.last().1@).insert(
            p.0@,
            p.1@,
        ));
    }
}

/// A property map: property names to raw byte values, as handed to the
/// systemd property protocol. Owned by the caller and updated in place.
pub struct PropertyMap {
    entries: Vec<(String, Vec<u8>)>,
}

impl View for PropertyMap {
    type V = Map<Seq<char>, Seq<u8>>;

    closed spec fn view(&self) -> Map<Seq<char>, Seq<u8>> {
        entries_map(self.entries@)
    }
}

impl PropertyMap {
    /// Each property name occurs at most once.
    pub closed spec fn wf(&self) -> bool {
        distinct_keys(self.entries@)
    }

    /// An empty map.
    pub fn new() -> (r: PropertyMap)
        ensures
            r.wf(),
            r@ == Map::<Seq<char>, Seq<u8>>::empty(),
    {
        PropertyMap { entries: Vec::new() }
    }

    /// How many properties are set.
    pub fn len(&self) -> (r: usize)
        requires
            self.wf(),
        ensures
            r == self@.dom().len(),
    {
        proof {
            lemma_entries_map_len(self.entries@);
        }
        self.entries.len()
    }

    /// The value under `key`, if any.
    pub fn get(&self, key: &str) -> (r: Option<&Vec<u8>>)
        requires
            self.wf(),
        ensures
            ({
                match r {
                    Some(v) => self@.contains_key(key@) && v@ == self@[key@],
                    None => !self@.contains_key(key@),
                }
            }),
    {
        let k = key.to_owned();
        let mut i: usize = 0;
        while i < self.entries.len()
            invariant
                self.wf(),
                k@ == key@,
                i <= self.entries@.len(),
                forall|j: int| 0 <= j < i ==> (#[trigger] self.entries@[j]).0@ != key@,
            decreases self.entries@.len() - i,
        {
            let e = &self.entries[i];
            if e.0 == k {
                proof {
                    lemma_entries_map_get(self.entries@, i as int);
                }
                return Some(&e.1);
            }
            i = i + 1;
        }
        proof {
            lemma_entries_map_contains(self.entries@, key@);
        }
        None
    }

    /// Whether `key` is set.
    pub fn contains_key(&self, key: &str) -> (r: bool)
        requires
            self.wf(),
        ensures
            r == self@.contains_key(key@),
    {
        match self.get(key) {
            Some(_) => true,
            None => false,
        }
    }

    /// Sets `key` to `value`, replacing any previous value.
    pub fn insert(&mut self, key: &str, value: Vec<u8>)
        requires
            old(self).wf(),
        ensures
            final(self).wf(),
            final(self)@ == old(self)@.insert(key@, value@),
    {
        let k = key.to_owned();
        let ghost v0 = value@;
        let mut i: usize = 0;
        while i < self.entries.len()
            invariant
                self.wf(),
                self.entries@ == old(self).entries@,
                k@ == key@,
                v0 == value@,
                i <= self.entries@.len(),
                forall|j: int| 0 <= j < i ==> (#[trigger] self.entries@[j]).0@ != key@,
            decreases self.entries@.len() - i,
        {
            let hit = self.entries[i].0 == k;
            if hit {
                let ghost es = self.entries@;
                self.entries.set(i, (k, value));
                proof {
                    let p = self.entries@[i as int];
                    assert(self.entries@ =~= es.update(i as int, p));
                    assert(p.0@ == es[i as int].0@);
                    lemma_entries_map_update(es, i as int, p);
                    assert(p.0@ == key@ && p.1@ == v0);
                    assert forall|a: int, b: int|
                        0 <= a < b < self.entries@.len() implies (#[trigger] self.entries@[a]).0@
                        != (#[trigger] self.entries@[b]).0@ by {
                        assert(es[a].0@ != es[b].0@);
                    }
                }
                return;
            }
            i = i + 1;
        }
        let ghost es = self.entries@;
        self.entries.push((k, value));
        proof {
            assert(self.entries@.drop_last() =~= es);
            assert(final(self)@ == old(self)@.insert(key@, v0));
            assert forall|a: int, b: int|
                0 <= a < b < self.entries@.len() implies (#[trigger] self.entries@[a]).0@
                != (#[trigger] self.entries@[b]).0@ by {
                if b < es.len() {
                    assert(es[a].0@ != es[b].0@);
                } else {
                    assert(es[a].0@ != key@);
                }
            }
        }
    }
}

/// The optional CPU list and memory-node list of a resource-limit
/// specification, as plain strings.
pub struct CpuSpec {
    pub cpus: Option<String>,
    pub mems: Option<String>,
}

/// Which range list failed to encode.
#[derive(Clone, Copy, PartialEq, Eq, Structural, Debug)]
pub enum MaskField {
    Cpus,
    MemoryNodes,
}

/// Why a cpuset restriction could not be applied.
#[derive(Clone, Copy, PartialEq, Eq, Structural, Debug)]
pub enum ApplyError {
    /// systemd at or below version 243 does not honor the cpuset properties.
    UnsupportedVersion,
    /// The named range list failed to parse.
    EncodingFailed { field: MaskField, cause: ParseError },
}

impl ApplyError {
    /// A short description of the failure, in the place of a formatting
    /// impl.
    pub fn message(&self) -> (r: &'static str)
        ensures
            ({
                match *self {
                    ApplyError::UnsupportedVersion => r@
                        == "setting cpuset restrictions requires systemd version greater than 243"@,
                    ApplyError::EncodingFailed { field, .. } => ({
                        match field {
                            MaskField::Cpus => r@ == "could not create bitmask for cpus"@,
                            MaskField::MemoryNodes => r@
                                == "could not create bitmask for memory nodes"@,
                        }
                    }),
                }
            }),
    {
        match self {
            ApplyError::UnsupportedVersion => {
                "setting cpuset restrictions requires systemd version greater than 243"
            },
            ApplyError::EncodingFailed { field: MaskField::Cpus, .. } => {
                "could not create bitmask for cpus"
            },
            ApplyError::EncodingFailed { field: MaskField::MemoryNodes, .. } => {
                "could not create bitmask for memory nodes"
            },
        }
    }
}

/// `m1` is `m0` with the requested masks written: the CPU mask under
/// `AllowedCPUs` when `wc`, the memory-node mask under `AllowedMemoryNodes`
/// when `wm`; every other property keeps its value, and each written value
/// is the canonical encoding of its bit set.
pub open spec fn masks_written(
    m0: Map<Seq<char>, Seq<u8>>,
    m1: Map<Seq<char>, Seq<u8>>,
    wc: bool,
    cbits: Set<int>,
    wm: bool,
    mbits: Set<int>,
) -> bool {
    &&& m1.dom() == m0.dom().union(if wc {
        set![cpus_key()]
    } else {
        Set::empty()
    }).union(
        if wm {
            set![nodes_key()]
        } else {
            Set::empty()
        },
    )
    &&& forall|q: Seq<char>|
        (#[trigger] m0.dom().contains(q)) && !(wc && q == cpus_key()) && !(wm && q
            == nodes_key()) ==> m1[q] == m0[q]
    &&& wc ==> is_be_encoding(m1[cpus_key()], cbits)
    &&& wm ==> is_be_encoding(m1[nodes_key()], mbits)
}

/// What `CpuSet::apply` does once the version check has succeeded: the first
/// list that fails to parse is reported, the CPU list first; everything
/// already encoded stays written; on success both present lists are written.
pub open spec fn apply_post(
    cpu: CpuSpec,
    m0: Map<Seq<char>, Seq<u8>>,
    m1: Map<Seq<char>, Seq<u8>>,
    r: Result<(), ApplyError>,
) -> bool {
    let cres = match cpu.cpus {
        Some(c) => spec_mask(c@),
        None => Ok(Set::empty()),
    };
    let mres = match cpu.mems {
        Some(m) => spec_mask(m@),
        None => Ok(Set::empty()),
    };
    if cpu.cpus is Some && cres is Err {
        &&& r == Err::<(), ApplyError>(
            ApplyError::EncodingFailed { field: MaskField::Cpus, cause: cres->Err_0 },
        )
        &&& m1 == m0
    } else if cpu.mems is Some && mres is Err {
        &&& r == Err::<(), ApplyError>(
            ApplyError::EncodingFailed { field: MaskField::MemoryNodes, cause: mres->Err_0 },
        )
        &&& masks_written(m0, m1, cpu.cpus is Some, cres->Ok_0, false, Set::empty())
    } else {
        &&& r == Ok::<(), ApplyError>(())
        &&& masks_written(m0, m1, cpu.cpus is Some, cres->Ok_0, cpu.mems is Some, mres->Ok_0)
    }
}

/// The cpuset controller.
pub struct CpuSet {}

impl CpuSet {
    /// Applies the cpuset restriction of `cpu` to `properties`. With
    /// systemd at or below version 243 the call fails and writes nothing,
    /// for the CPU list and the memory-node list alike. Otherwise it
    /// encodes the CPU list and then the memory-node list, writing each
    /// under its property key; the first parse failure is reported with its
    /// field, and the call stops there.
    pub fn apply(cpu: &CpuSpec, systemd_version: u32, properties: &mut PropertyMap) -> (r: Result<
        (),
        ApplyError,
    >)
        requires
            old(properties).wf(),
        ensures
            final(properties).wf(),
            systemd_version <= 243 ==> final(properties)@ == old(properties)@ && r == Err::<
                (),
                ApplyError,
            >(ApplyError::UnsupportedVersion),
            systemd_version > 243 ==> apply_post(*cpu, old(properties)@, final(properties)@, r),
    {
        if systemd_version <= 243 {
            return Err(ApplyError::UnsupportedVersion);
        }
        let ghost m0 = properties@;
        match &cpu.cpus {
            Some(cpus) => {
                match to_bitmask(cpus.as_str()) {
                    Ok(cpu_mask) => {
                        properties.insert("AllowedCPUs", cpu_mask);
                    },
                    Err(e) => {
                        return Err(ApplyError::EncodingFailed { field: MaskField::Cpus, cause: e });
                    },
                }
            },
            None => {},
        }
        let ghost mid = properties@;
        proof {
            lemma_keys_distinct();
            assert(mid.dom() =~= m0.dom().union(
                if cpu.cpus is Some {
                    set![cpus_key()]
                } else {
                    Set::empty()
                },
            ).union(Set::empty()));
        }
        match &cpu.mems {
            Some(mems) => {
                match to_bitmask(mems.as_str()) {
                    Ok(mems_mask) => {
                        properties.insert("AllowedMemoryNodes", mems_mask);
                        proof {
                            assert(properties@.dom() =~= m0.dom().union(
                                if cpu.cpus is Some {
                                    set![cpus_key()]
                                } else {
                                    Set::empty()
                                },
                            ).union(set![nodes_key()]));
                        }
                    },
                    Err(e) => {
                        return Err(
                            ApplyError::EncodingFailed { field: MaskField::MemoryNodes, cause: e },
                        );
                    },
                }
            },
            None => {},
        }
        Ok(())
    }

    /// The controller entry: a resource specification without a CPU section
    /// configures no cpuset restriction, so the call succeeds and writes
    /// nothing; otherwise the section is applied.
    pub fn apply_resources(
        cpu: Option<&CpuSpec>,
        systemd_version: u32,
        properties: &mut PropertyMap,
    ) -> (r: Result<(), ApplyError>)
        requires
            old(properties).wf(),
        ensures
            final(properties).wf(),
            cpu is None ==> final(properties)@ == old(properties)@ && r == Ok::<(), ApplyError>(()),
            cpu is Some && systemd_version <= 243 ==> final(properties)@ == old(properties)@ && r
                == Err::<(), ApplyError>(ApplyError::UnsupportedVersion),
            cpu is Some && systemd_version > 243 ==> apply_post(
                *cpu->Some_0,
                old(properties)@,
                final(properties)@,
                r,
            ),
    {
        match cpu {
            Some(c) => CpuSet::apply(c, systemd_version, properties),
            None => Ok(()),
        }
    }
}

/// The two property keys differ.
proof fn lemma_keys_distinct()
    ensures
        cpus_key() != nodes_key(),
{
    reveal_strlit("AllowedCPUs");
    reveal_strlit("AllowedMemoryNodes");
    assert(cpus_key().len() == 11);
    assert(nodes_key().len() == 18);
}

} // verus!

