use vstd::prelude::*;

verus! {

/// A window of physical memory, addressed by physical address and read and
/// written one 64-bit word at a time.
pub struct MemoryRegion {
    base: u64,
    data: Vec<u64>,
}

impl MemoryRegion {
    /// Physical address of the first byte of the region.
    pub closed spec fn base_spec(&self) -> int {
        self.base as int
    }

    /// The words of the region, in address order.
    pub closed spec fn words(&self) -> Seq<u64> {
        self.data@
    }

    pub open spec fn end_spec(&self) -> int {
        self.base_spec() + 8 * self.words().len()
    }

    /// The region's extent fits the 64-bit address space.
    pub open spec fn wf(&self) -> bool {
        self.end_spec() <= u64::MAX
    }

    /// `pa` is a word-aligned address whose word lies in the region.
    pub open spec fn holds_word(&self, pa: int) -> bool {
        self.base_spec() <= pa && pa + 8 <= self.end_spec() && (pa - self.base_spec()) % 8 == 0
    }

    /// Index in `words()` of the word at address `pa`.
    pub open spec fn index_of(&self, pa: int) -> int {
        (pa - self.base_spec()) / 8
    }

    /// The word at address `pa`.
    pub open spec fn word(&self, pa: int) -> u64 {
        self.words()[self.index_of(pa)]
    }

    /// Makes a region starting at physical address `base` that holds `data`.
    pub fn new(base: u64, data: Vec<u64>) -> (r: MemoryRegion)
        requires
            base + 8 * data@.len() <= u64::MAX,
        ensures
            r.wf(),
            r.base_spec() == base,
            r.words() == data@,
    {
        MemoryRegion { base, data }
    }

    pub fn base(&self) -> (r: u64)
        ensures
            r == self.base_spec(),
    {
        self.base
    }

    /// Length of the region in bytes.
    pub fn len(&self) -> (r: u64)
        requires
            self.wf(),
        ensures
            r == 8 * self.words().len(),
    {
        (self.data.len() as u64) * 8
    }

    /// Whether `pa` lies inside the region.
    pub fn in_region(&self, pa: u64) -> (r: bool)
        requires
            self.wf(),
        ensures
            r == (self.base_spec() <= pa < self.end_spec()),
    {
        pa >= self.base && pa - self.base < (self.data.len() as u64) * 8
    }

    /// Bounds-checked read of the word at `pa`: `None` unless `pa` is a
    /// word-aligned address inside the region.
    pub fn get(&self, pa: u64) -> (r: Option<u64>)
        requires
            self.wf(),
        ensures
            r == (if self.holds_word(pa as int) {
                Some(self.word(pa as int))
            } else {
                None::<u64>
            }),
    {
        if pa >= self.base && (pa - self.base) % 8 == 0 && (pa - self.base) / 8 < self.data.len() as u64 {
            Some(self.data[((pa - self.base) / 8) as usize])
        } else {
            None
        }
    }

    /// Reads the word at `pa`, which must lie in the region.
    pub fn read(&self, pa: u64) -> (r: u64)
        requires
            self.wf(),
            self.holds_word(pa as int),
        ensures
            r == self.word(pa as int),
    {
        assert((pa - self.base) / 8 < self.data.len());
        self.data[((pa - self.base) / 8) as usize]
    }

    /// Writes `value` to the word at `pa`, which must lie in the region.
    pub fn write(&mut self, pa: u64, value: u64)
        requires
            old(self).wf(),
            old(self).holds_word(pa as int),
        ensures
            final(self).wf(),
            final(self).base_spec() == old(self).base_spec(),
            final(self).words() == old(self).words().update(old(self).index_of(pa as int), value),
    {
        assert((pa - self.base) / 8 < self.data.len());
        let i = ((pa - self.base) / 8) as usize;
        self.data.set(i, value);
    }
}

} // verus!
