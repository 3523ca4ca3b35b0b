//! A simulated 32-bit address space: mapped regions of bytes, plus a journal of
//! 4-byte writes laid over them. Reads see the most recent write covering an
//! address, else the last mapped region that covers it.
use vstd::prelude::*;

verus! {

/// One mapped region: `bytes` lie at `start .. start + bytes.len()`.
pub struct Region {
    pub start: u32,
    pub bytes: Vec<u8>,
}

/// One 4-byte little-endian write of `value` at `address`.
#[derive(Clone, Copy, PartialEq, Eq, Debug)]
pub struct Patch {
    pub address: u32,
    pub value: u32,
}

pub struct AddressSpace {
    pub regions: Vec<Region>,
    pub patches: Vec<Patch>,
}

pub open spec fn region_covers(r: Region, a: int) -> bool {
    r.start <= a < r.start + r.bytes@.len()
}

pub open spec fn region_fits(r: Region) -> bool {
    r.start + r.bytes@.len() <= 0x1_0000_0000
}

/// Byte `k` (0..4) of the little-endian form of `v`.
pub open spec fn le_byte(v: u32, k: int) -> u8 {
    if k == 0 {
        (v % 256) as u8
    } else if k == 1 {
        ((v / 256) % 256) as u8
    } else if k == 2 {
        ((v / 65536) % 256) as u8
    } else {
        (v / 16777216) as u8
    }
}

/// The little-endian value of four bytes.
pub open spec fn le_value(b: Seq<u8>) -> u32 {
    (b[0] + 256 * b[1] + 65536 * b[2] + 16777216 * b[3]) as u32
}

pub open spec fn le_bytes(v: u32) -> Seq<u8> {
    seq![le_byte(v, 0), le_byte(v, 1), le_byte(v, 2), le_byte(v, 3)]
}

pub open spec fn mapped_byte(regions: Seq<Region>, a: int) -> Option<u8>
    decreases regions.len(),
{
    if regions.len() == 0 {
        None
    } else if region_covers(regions.last(), a) {
        Some(regions.last().bytes@[a - regions.last().start])
    } else {
        mapped_byte(regions.drop_last(), a)
    }
}

pub open spec fn patch_covers(p: Patch, a: int) -> bool {
    p.address <= a < p.address + 4
}

pub open spec fn patched_byte(patches: Seq<Patch>, a: int) -> Option<u8>
    decreases patches.len(),
{
    if patches.len() == 0 {
        None
    } else if patch_covers(patches.last(), a) {
        Some(le_byte(patches.last().value, a - patches.last().address))
    } else {
        patched_byte(patches.drop_last(), a)
    }
}

pub open spec fn wrap(x: int) -> u32 {
    (x % 0x1_0000_0000) as u32
}

/// Appends the little-endian form of `v` to `out`.
pub fn push_u32_le(out: &mut Vec<u8>, v: u32)
    ensures
        final(out)@ == old(out)@ + le_bytes(v),
{
    out.push((v % 256) as u8);
    out.push(((v / 256) % 256) as u8);
    out.push(((v / 65536) % 256) as u8);
    out.push((v / 16777216) as u8);
    assert(final(out)@ =~= old(out)@ + le_bytes(v));
}

impl AddressSpace {
    pub open spec fn wf(&self) -> bool {
        forall|i: int| 0 <= i < self.regions@.len() ==> region_fits(#[trigger] self.regions@[i])
    }

    /// The byte at `a`, or `None` where nothing is mapped. A write is only ever
    /// laid over mapped bytes.
    pub open spec fn byte_at(&self, a: int) -> Option<u8> {
        match patched_byte(self.patches@, a) {
            Some(b) => Some(b),
            None => mapped_byte(self.regions@, a),
        }
    }

    pub open spec fn readable(&self, a: int, n: int) -> bool {
        &&& 0 <= a
        &&& a + n <= 0x1_0000_0000
        &&& forall|k: int| 0 <= k < n ==> (#[trigger] self.byte_at(a + k)).is_some()
    }

    pub open spec fn bytes_at(&self, a: int, n: nat) -> Seq<u8> {
        Seq::new(n, |k: int| self.byte_at(a + k).unwrap())
    }

    pub open spec fn u32_at(&self, a: int) -> u32 {
        le_value(self.bytes_at(a, 4))
    }

    pub fn new() -> (r: AddressSpace)
        ensures
            r.wf(),
            r.regions@.len() == 0,
            r.patches@.len() == 0,
    {
        AddressSpace { regions: Vec::new(), patches: Vec::new() }
    }

    /// Maps `bytes` at `start`. Where it overlaps a region mapped before, the
    /// new region is the one read.
    pub fn map_region(&mut self, start: u32, bytes: Vec<u8>)
        requires
            old(self).wf(),
            start + bytes@.len() <= 0x1_0000_0000,
        ensures
            final(self).wf(),
            final(self).patches == old(self).patches,
            final(self).regions@ == old(self).regions@.push(Region { start, bytes }),
    {
        self.regions.push(Region { start, bytes });
    }

    /// The mapped regions, as `(start, end)` pairs with `end` exclusive.
    pub fn region_bounds(&self) -> (r: Vec<(u32, u64)>)
        requires
            self.wf(),
        ensures
            r@.len() == self.regions@.len(),
            forall|i: int|
                0 <= i < r@.len() ==> (#[trigger] r@[i]).0 == self.regions@[i].start && r@[i].1
                    == self.regions@[i].start + self.regions@[i].bytes@.len(),
    {
        let mut r: Vec<(u32, u64)> = Vec::new();
        let mut i: usize = 0;
        while i < self.regions.len()
            invariant
                self.wf(),
                i <= self.regions@.len(),
                r@.len() == i,
                forall|j: int|
                    0 <= j < i ==> (#[trigger] r@[j]).0 == self.regions@[j].start && r@[j].1
                        == self.regions@[j].start + self.regions@[j].bytes@.len(),
            decreases self.regions@.len() - i,
        {
            let reg = &self.regions[i];
            assert(region_fits(self.regions@[i as int]));
            r.push((reg.start, reg.start as u64 + reg.bytes.len() as u64));
            i += 1;
        }
        r
    }

    /// The byte at `a`, or `None` where nothing is mapped.
    pub fn read_byte(&self, a: u32) -> (r: Option<u8>)
        ensures
            r == self.byte_at(a as int),
    {
        let mut k: usize = self.patches.len();
        assert(self.patches@.take(k as int) =~= self.patches@);
        while k > 0
            invariant
                k <= self.patches@.len(),
                patched_byte(self.patches@.take(k as int), a as int) == patched_byte(
                    self.patches@,
                    a as int,
                ),
            decreases k,
        {
            let p = self.patches[k - 1];
            assert(self.patches@.take(k as int).drop_last() =~= self.patches@.take(k - 1));
            if p.address <= a && (a as u64) < p.address as u64 + 4 {
                let off = a - p.address;
                let b = if off == 0 {
                    (p.value % 256) as u8
                } else if off == 1 {
                    ((p.value / 256) % 256) as u8
                } else if off == 2 {
                    ((p.value / 65536) % 256) as u8
                } else {
                    (p.value / 16777216) as u8
                };
                return Some(b);
            }
            k -= 1;
        }
        assert(self.patches@.take(0) =~= Seq::<Patch>::empty());
        let mut k: usize = self.regions.len();
        assert(self.regions@.take(k as int) =~= self.regions@);
        while k > 0
            invariant
                k <= self.regions@.len(),
                patched_byte(self.patches@, a as int) is None,
                mapped_byte(self.regions@.take(k as int), a as int) == mapped_byte(
                    self.regions@,
                    a as int,
                ),
            decreases k,
        {
            let reg = &self.regions[k - 1];
            assert(self.regions@.take(k as int).drop_last() =~= self.regions@.take(k - 1));
            if reg.start <= a && ((a - reg.start) as usize) < reg.bytes.len() {
                return Some(reg.bytes[(a - reg.start) as usize]);
            }
            k -= 1;
        }
        assert(self.regions@.take(0) =~= Seq::<Region>::empty());
        None
    }

    /// The `n` bytes at `a`, or `None` where any of them is unmapped.
    pub fn read_bytes(&self, a: u32, n: u32) -> (r: Option<Vec<u8>>)
        ensures
            r is Some <==> self.readable(a as int, n as int),
            r is Some ==> r->0@ == self.bytes_at(a as int, n as nat),
    {
        if a as u64 + n as u64 > 0x1_0000_0000 {
            return None;
        }
        let mut out: Vec<u8> = Vec::new();
        let mut k: u32 = 0;
        while k < n
            invariant
                k <= n,
                a + n <= 0x1_0000_0000,
                out@.len() == k,
                forall|j: int| 0 <= j < k ==> (#[trigger] self.byte_at(a + j)).is_some(),
                forall|j: int| 0 <= j < k ==> out@[j] == #[trigger] self.byte_at(a + j).unwrap(),
            decreases n - k,
        {
            match self.read_byte(a + k) {
                Some(b) => out.push(b),
                None => {
                    assert(!self.byte_at(a + k).is_some());
                    return None;
                },
            }
            k += 1;
        }
        assert(out@ =~= self.bytes_at(a as int, n as nat));
        Some(out)
    }

    /// The little-endian 32-bit word at `a`, or `None` where unmapped.
    pub fn read_u32(&self, a: u32) -> (r: Option<u32>)
        ensures
            r is Some <==> self.readable(a as int, 4),
            r is Some ==> r->0 == self.u32_at(a as int),
    {
        match self.read_bytes(a, 4) {
            Some(b) => {
                let v = b[0] as u32 + 256 * b[1] as u32 + 65536 * b[2] as u32 + 16777216
                    * b[3] as u32;
                Some(v)
            },
            None => None,
        }
    }

    /// Writes `value` little-endian at `a`, over mapped bytes.
    pub fn write_u32(&mut self, a: u32, value: u32)
        requires
            old(self).readable(a as int, 4),
        ensures
            final(self).regions == old(self).regions,
            final(self).patches@ == old(self).patches@.push(Patch { address: a, value }),
    {
        self.patches.push(Patch { address: a, value });
    }
}

} // verus!
