//! The pager: a bounded cache of page slots in front of the image of the
//! backing file.
//!
//! The library never touches the file system. It works on the bytes of the
//! file, which its caller reads before opening and writes back after closing.

use vstd::prelude::*;
use crate::layout::{PAGE_SIZE, TABLE_MAX_PAGES};

verus! {

/// Why a file cannot be opened.
#[derive(Debug, Clone, Copy, PartialEq, Eq, Structural)]
pub enum PagerError {
    /// The length of the file is not a whole number of pages.
    CorruptFile,
}

/// The pages of a file: those that were brought into the cache, and the
/// file with the others.
pub struct Pager {
    /// The bytes of the backing file.
    pub file: Vec<u8>,
    /// One more than the highest page number in use.
    pub num_pages: usize,
    /// The cache: one slot for each page number below `TABLE_MAX_PAGES`.
    pub pages: Vec<Option<Box<[u8; PAGE_SIZE]>>>,
}

/// Page `n` as the file holds it: bytes behind the end of the file read as
/// zero.
pub open spec fn file_page(file: Seq<u8>, n: int) -> Seq<u8> {
    Seq::new(
        PAGE_SIZE as nat,
        |k: int|
            if 0 <= n * 4096 + k < file.len() {
                file[n * 4096 + k]
            } else {
                0u8
            },
    )
}

/// The file after `page` was written at page number `n`: a file that was
/// shorter is filled up with zeros.
pub open spec fn file_with_page(file: Seq<u8>, n: int, page: Seq<u8>) -> Seq<u8> {
    Seq::new(
        if file.len() >= (n + 1) * 4096 {
            file.len()
        } else {
            ((n + 1) * 4096) as nat
        },
        |k: int|
            if n * 4096 <= k < (n + 1) * 4096 {
                page[k - n * 4096]
            } else if k < file.len() {
                file[k]
            } else {
                0u8
            },
    )
}

impl Pager {
    /// The cache has one slot for each page number, and only pages in use
    /// are cached.
    pub open spec fn wf(&self) -> bool {
        &&& self.pages@.len() == TABLE_MAX_PAGES
        &&& forall|n: int|
            0 <= n < self.pages@.len() && (#[trigger] self.pages@[n]) is Some ==> n
                < self.num_pages
    }

    /// Whether page `n` is in the cache.
    pub open spec fn resident(&self, n: int) -> bool {
        0 <= n < self.pages@.len() && self.pages@[n] is Some
    }

    /// The bytes of page `n`: those in the cache where the page is cached,
    /// else those in the file.
    pub open spec fn page_view(&self, n: int) -> Seq<u8> {
        if self.resident(n) {
            (*(self.pages@[n]->0))@
        } else {
            file_page(self.file@, n)
        }
    }
}

/// Page `n` of the file, read into a buffer of its own.
fn read_file_page(file: &Vec<u8>, page_num: usize) -> (page: Box<[u8; PAGE_SIZE]>)
    requires
        page_num < TABLE_MAX_PAGES,
    ensures
        (*page)@ == file_page(file@, page_num as int),
{
    let mut buf: [u8; PAGE_SIZE] = [0u8; PAGE_SIZE];
    let file_length: usize = file.len();
    let num_pages: usize = file_length / PAGE_SIZE;
    let has_partial_page: bool = file_length % PAGE_SIZE != 0;
    if page_num < num_pages || (page_num == num_pages && has_partial_page) {
        let start: usize = page_num * PAGE_SIZE;
        let bytes_to_read: usize = if page_num < num_pages {
            PAGE_SIZE
        } else {
            file_length % PAGE_SIZE
        };
        let mut k: usize = 0;
        while k < bytes_to_read
            invariant
                start == page_num * 4096,
                bytes_to_read <= PAGE_SIZE,
                start + bytes_to_read <= file@.len(),
                k <= bytes_to_read,
                forall|j: int| 0 <= j < k ==> buf@[j] == file@[start + j],
                forall|j: int| k <= j < PAGE_SIZE ==> buf@[j] == 0u8,
            decreases bytes_to_read - k,
        {
            buf[k] = file[start + k];
            k = k + 1;
        }
    }
    assert(buf@ =~= file_page(file@, page_num as int));
    Box::new(buf)
}

/// A pager over the bytes of a file, with an empty cache. The file must
/// hold a whole number of pages.
pub fn pager_open(file: Vec<u8>) -> (r: Result<Pager, PagerError>)
    ensures
        file@.len() % (PAGE_SIZE as nat) != 0 <==> r is Err,
        r matches Ok(pager) ==> {
            &&& pager.file@ == file@
            &&& pager.num_pages == file@.len() / (PAGE_SIZE as nat)
            &&& pager.pages@.len() == TABLE_MAX_PAGES
            &&& forall|n: int| 0 <= n < TABLE_MAX_PAGES ==> pager.pages@[n] is None
            &&& pager.wf()
        },
{
    let file_length: usize = file.len();
    if file_length % PAGE_SIZE != 0 {
        return Err(PagerError::CorruptFile);
    }
    let num_pages: usize = file_length / PAGE_SIZE;
    let mut pages: Vec<Option<Box<[u8; PAGE_SIZE]>>> = Vec::new();
    let mut i: usize = 0;
    while i < TABLE_MAX_PAGES
        invariant
            i <= TABLE_MAX_PAGES,
            pages@.len() == i,
            forall|n: int| 0 <= n < i ==> pages@[n] is None,
        decreases TABLE_MAX_PAGES - i,
    {
        pages.push(None);
        i = i + 1;
    }
    Ok(Pager { file, num_pages, pages })
}

/// The page with number `page_num`, brought into the cache from the file
/// if it was not there. A page number at or behind `num_pages` extends the
/// pages in use up to it.
pub fn get_page(pager: &mut Pager, page_num: usize) -> (page: &mut [u8; PAGE_SIZE])
    requires
        old(pager).wf(),
        page_num < TABLE_MAX_PAGES,
    ensures
        page@ == old(pager).page_view(page_num as int),
        final(pager).file == old(pager).file,
        final(pager).num_pages == if page_num >= old(pager).num_pages {
            (page_num + 1) as usize
        } else {
            old(pager).num_pages
        },
        final(pager).pages@ == old(pager).pages@.update(
            page_num as int,
            Some(Box::new(*final(page))),
        ),
        final(pager).wf(),
        final(pager).page_view(page_num as int) == final(page)@,
        forall|m: int| m != page_num ==> final(pager).page_view(m) == old(pager).page_view(m),
        forall|m: int| m != page_num ==> final(pager).resident(m) == old(pager).resident(m),
        final(pager).resident(page_num as int),
{
    if pager.pages[page_num].is_none() {
        let page: Box<[u8; PAGE_SIZE]> = read_file_page(&pager.file, page_num);
        pager.pages[page_num] = Some(page);
        if page_num >= pager.num_pages {
            pager.num_pages = page_num + 1;
        }
    }
    match &mut pager.pages[page_num] {
        Some(p) => &mut **p,
        None => vstd::pervasive::unreached(),
    }
}

/// The number of the next page that is not in use.
pub fn get_unused_page_num(pager: &Pager) -> (n: usize)
    ensures
        n == pager.num_pages,
{
    pager.num_pages
}

/// Writes the cached page `page_num` to the file. The page must be in the
/// cache.
pub fn pager_flush(pager: &mut Pager, page_num: usize)
    requires
        old(pager).wf(),
        old(pager).resident(page_num as int),
        old(pager).file@.len() + PAGE_SIZE <= usize::MAX,
    ensures
        final(pager).file@ == file_with_page(
            old(pager).file@,
            page_num as int,
            old(pager).page_view(page_num as int),
        ),
        final(pager).num_pages == old(pager).num_pages,
        final(pager).pages@ == old(pager).pages@,
{
    let start: usize = page_num * PAGE_SIZE;
    let end: usize = start + PAGE_SIZE;
    let ghost before = pager.file@;
    while pager.file.len() < end
        invariant
            end == start + PAGE_SIZE,
            pager.num_pages == old(pager).num_pages,
            pager.pages@ == old(pager).pages@,
            before.len() <= pager.file@.len(),
            pager.file@.len() <= end || pager.file@.len() == before.len(),
            forall|k: int| 0 <= k < before.len() ==> pager.file@[k] == before[k],
            forall|k: int| before.len() <= k < pager.file@.len() ==> pager.file@[k] == 0u8,
        decreases end - pager.file@.len(),
    {
        pager.file.push(0u8);
    }
    let ghost page = pager.page_view(page_num as int);
    let mut k: usize = 0;
    while k < PAGE_SIZE
        invariant
            k <= PAGE_SIZE,
            start == page_num * 4096,
            end == start + PAGE_SIZE,
            end <= pager.file@.len(),
            pager.num_pages == old(pager).num_pages,
            pager.pages@ == old(pager).pages@,
            pager.resident(page_num as int),
            page == old(pager).page_view(page_num as int),
            pager.file@.len() == if before.len() >= end {
                before.len()
            } else {
                end as nat
            },
            forall|j: int|
                0 <= j < pager.file@.len() ==> pager.file@[j] == if start <= j < start + k {
                    page[j - start]
                } else if j < before.len() {
                    before[j]
                } else {
                    0u8
                },
        decreases PAGE_SIZE - k,
    {
        let b: u8 = match &pager.pages[page_num] {
            Some(p) => p[k],
            None => vstd::pervasive::unreached(),
        };
        pager.file[start + k] = b;
        k = k + 1;
    }
    assert(pager.file@ =~= file_with_page(before, page_num as int, page));
}

/// A page that was written to the file is read from it as it was written,
/// and every other page as before.
pub proof fn lemma_file_with_page(file: Seq<u8>, n: int, page: Seq<u8>, m: int)
    requires
        0 <= n,
        page.len() == PAGE_SIZE,
    ensures
        file_page(file_with_page(file, n, page), m) == if m == n {
            page
        } else {
            file_page(file, m)
        },
{
    let after = file_with_page(file, n, page);
    if m == n {
        assert(file_page(after, m) =~= page);
    } else {
        assert(file_page(after, m) =~= file_page(file, m));
    }
}

} // verus!
