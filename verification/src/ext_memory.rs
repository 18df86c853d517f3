use vstd::prelude::*;

verus! {

/// Bytes in one erasable sector of the external flash.
pub const SECTOR_SIZE: usize = 4096;

/// Bytes in one programmable page of the external flash.
pub const PAGE_SIZE: usize = 256;

/// The byte address where sector `sector_id` starts.
pub fn sector_address(sector_id: u8) -> (r: u32)
    ensures
        r == sector_id * 4096,
{
    proof {
        assert(sector_id * 4096 <= 255 * 4096);
    }
    sector_id as u32 * SECTOR_SIZE as u32
}

/// The byte address where page `page` of sector `sector_id` starts.
pub fn page_address(sector_id: u8, page: usize) -> (r: u32)
    requires
        page < SECTOR_SIZE / PAGE_SIZE,
    ensures
        r == sector_id * 4096 + page * 256,
{
    sector_address(sector_id) + (page as u32) * (PAGE_SIZE as u32)
}

/// The program schedule for writing one full sector: after the erase of
/// the sector, one page program per page, at ascending page-aligned
/// addresses that cover the sector exactly.
pub fn sector_write_plan(sector_id: u8) -> (plan: Vec<u32>)
    ensures
        plan@.len() == SECTOR_SIZE / PAGE_SIZE,
        forall|k: int| 0 <= k < plan@.len() ==> plan@[k] == sector_id * 4096 + k * 256,
{
    let mut plan: Vec<u32> = Vec::new();
    let pages = SECTOR_SIZE / PAGE_SIZE;
    let mut page: usize = 0;
    while page < pages
        invariant
            page <= pages,
            pages == SECTOR_SIZE / PAGE_SIZE,
            plan@.len() == page,
            forall|k: int| 0 <= k < page ==> plan@[k] == sector_id * 4096 + k * 256,
        decreases pages - page,
    {
        plan.push(page_address(sector_id, page));
        page = page + 1;
    }
    plan
}

} // verus!
