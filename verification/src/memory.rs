use vstd::prelude::*;

verus! {

/// A committed, readable region of the target process's address space.
#[derive(Clone, Copy, Debug)]
pub struct MemRegion {
    pub base: u64,
    pub size: usize,
}

/// Win32 `MEM_COMMIT`: the pages of the region are committed.
pub const MEM_COMMIT: u32 = 0x1000;

/// Win32 `PAGE_NOACCESS`: the pages may not be touched at all.
pub const PAGE_NOACCESS: u32 = 0x01;

/// Win32 `PAGE_GUARD`: the pages are guard pages.
pub const PAGE_GUARD: u32 = 0x100;

/// What one query of the address space reports about the region that holds
/// the queried address (the fields of a `MEMORY_BASIC_INFORMATION` that the
/// scan reads).
#[derive(Clone, Copy, Debug)]
pub struct RegionInfo {
    pub base_address: usize,
    pub region_size: usize,
    pub state: u32,
    pub protect: u32,
}

/// A region is scanned when it is committed and readable: it has some
/// protection, and neither no-access nor guard pages.
pub open spec fn spec_is_readable(info: RegionInfo) -> bool {
    &&& info.state == MEM_COMMIT
    &&& info.protect != 0
    &&& info.protect & PAGE_NOACCESS == 0
    &&& info.protect & PAGE_GUARD == 0
}

/// Whether a scan reads the region that `info` describes.
pub fn is_readable(info: &RegionInfo) -> (r: bool)
    ensures
        r == spec_is_readable(*info),
{
    info.state == MEM_COMMIT && info.protect != 0 && info.protect & PAGE_NOACCESS == 0
        && info.protect & PAGE_GUARD == 0
}

/// A walk over the target's address space, region by region, from address 0.
/// The loop that drives it queries `address` while the walk is not `done`,
/// and hands each answer to `step`.
pub struct RegionWalk {
    pub address: usize,
    pub done: bool,
    pub regions: Vec<MemRegion>,
}

impl RegionWalk {
    /// A walk that starts at address 0 with nothing found.
    pub fn new() -> (w: RegionWalk)
        ensures
            w.address == 0,
            !w.done,
            w.regions@.len() == 0,
    {
        RegionWalk { address: 0, done: false, regions: Vec::new() }
    }

    /// Take in the answer to the query of `address`: `None` where the query
    /// failed, which ends the walk. A readable region is recorded; the walk
    /// goes on just past the region, and ends when that is not past `address`.
    pub fn step(&mut self, answer: Option<RegionInfo>)
        requires
            !old(self).done,
            answer matches Some(info) ==> info.base_address + info.region_size <= usize::MAX,
        ensures
            match answer {
                None => {
                    &&& final(self).done
                    &&& final(self).regions@ == old(self).regions@
                },
                Some(info) => {
                    let next = info.base_address + info.region_size;
                    &&& final(self).regions@ == if spec_is_readable(info) {
                        old(self).regions@.push(
                            MemRegion { base: info.base_address as u64, size: info.region_size },
                        )
                    } else {
                        old(self).regions@
                    }
                    &&& final(self).done == (next <= old(self).address)
                    &&& !final(self).done ==> final(self).address == next
                },
            },
            final(self).done || final(self).address > old(self).address,
    {
        match answer {
            None => {
                self.done = true;
            },
            Some(info) => {
                if is_readable(&info) {
                    self.regions.push(
                        MemRegion { base: info.base_address as u64, size: info.region_size },
                    );
                }
                let next = info.base_address + info.region_size;
                if next <= self.address {
                    self.done = true;
                } else {
                    self.address = next;
                }
            },
        }
    }
}

/// Law: a region is read exactly when its state is committed (0x1000), it has
/// some protection, and the protection has neither the no-access bit (bit 0)
/// nor the guard bit (bit 8) set; every other protection bit is irrelevant.
pub proof fn law_readable_regions(info: RegionInfo)
    ensures
        spec_is_readable(info) <==> info.state == 0x1000 && info.protect != 0 && info.protect % 2 == 0
            && (info.protect / 0x100) % 2 == 0,
{
    let p = info.protect;
    assert((p & 0x01 == 0) == (p % 2 == 0)) by (bit_vector);
    assert((p & 0x100 == 0) == ((p / 0x100) % 2 == 0)) by (bit_vector);
}

/// Law: a committed region whose protection is one of the readable page
/// protections (read-only, read-write, write-copy, execute, execute-read,
/// execute-read-write, execute-write-copy), alone or with the no-cache or
/// write-combine modifier, is read; adding the guard modifier, or asking for
/// no access, or giving no protection, keeps it from being read.
pub proof fn law_readable_protections(base: usize, size: usize, protect: u32, modifier: u32)
    requires
        protect == 0x02 || protect == 0x04 || protect == 0x08 || protect == 0x10 || protect == 0x20
            || protect == 0x40 || protect == 0x80,
        modifier == 0 || modifier == 0x200 || modifier == 0x400,
    ensures
        spec_is_readable(
            RegionInfo { base_address: base, region_size: size, state: 0x1000, protect: protect | modifier },
        ),
        !spec_is_readable(
            RegionInfo {
                base_address: base,
                region_size: size,
                state: 0x1000,
                protect: protect | modifier | 0x100,
            },
        ),
        !spec_is_readable(RegionInfo { base_address: base, region_size: size, state: 0x1000, protect: 0x01 }),
        !spec_is_readable(RegionInfo { base_address: base, region_size: size, state: 0x1000, protect: 0 }),
        !spec_is_readable(
            RegionInfo { base_address: base, region_size: size, state: 0x2000, protect: protect | modifier },
        ),
{
    let q = protect | modifier;
    assert(q != 0 && q & 0x01 == 0 && q & 0x100 == 0 && (q | 0x100) & 0x100 != 0) by (bit_vector)
        requires
            protect == 0x02 || protect == 0x04 || protect == 0x08 || protect == 0x10 || protect
                == 0x20 || protect == 0x40 || protect == 0x80,
            modifier == 0 || modifier == 0x200 || modifier == 0x400,
            q == protect | modifier,
    ;
    assert(0x01u32 & 0x01 != 0) by (bit_vector);
}

/// What a read of memory yields: the bytes that were actually read, which may
/// be fewer than asked for (a partial copy); nothing when no byte was read.
pub open spec fn spec_read_result(buffer: Seq<u8>, read: usize) -> Option<Seq<u8>> {
    if read == 0 {
        None
    } else if read <= buffer.len() {
        Some(buffer.take(read as int))
    } else {
        Some(buffer)
    }
}

/// Turn the outcome of a read into its result: `buffer` is the buffer read
/// into and `read` how many bytes were copied into it, whether or not the
/// read as a whole succeeded.
pub fn read_result(buffer: Vec<u8>, read: usize) -> (out: Option<Vec<u8>>)
    ensures
        match spec_read_result(buffer@, read) {
            None => out is None,
            Some(s) => out matches Some(v) && v@ == s,
        },
{
    if read == 0 {
        return None;
    }
    let mut buf = buffer;
    buf.truncate(read);
    Some(buf)
}

} // verus!
