//! The page cache: every page of the database file, held in memory.
use vstd::prelude::*;
use crate::constants::{PAGE_SIZE, TABLE_MAX_PAGES};

verus! {

/// One page of the database.
pub type Page = [u8; PAGE_SIZE];

/// The pages of the database. Page `i` covers bytes `i * PAGE_SIZE ..` of
/// the file.
pub struct Pager {
    pub(crate) num_pages: u32,
    pub(crate) pages: Vec<Page>,
}

/// Why a database file could not be opened.
#[derive(PartialEq, Eq, Structural, Debug, Clone, Copy)]
pub enum PagerError {
    /// The file length is not a whole number of pages.
    NotWholePages,
}

/// A page of zero bytes.
pub open spec fn zero_page() -> Seq<u8> {
    Seq::new(PAGE_SIZE as nat, |i: int| 0u8)
}

/// The pages stored in `bytes`, one per `PAGE_SIZE` bytes.
pub open spec fn pages_of_bytes(bytes: Seq<u8>) -> Seq<Seq<u8>> {
    Seq::new(
        (bytes.len() / PAGE_SIZE as nat) as nat,
        |i: int| bytes.subrange(i * PAGE_SIZE, i * PAGE_SIZE + PAGE_SIZE),
    )
}

impl Pager {
    /// The contents of the pages.
    pub closed spec fn view(&self) -> Seq<Seq<u8>> {
        self.pages@.map_values(|p: Page| p@)
    }

    /// The pager holds one page per counted page.
    pub closed spec fn wf(&self) -> bool {
        self.pages@.len() == self.num_pages
    }

    /// The number of pages the pager holds.
    pub closed spec fn spec_num_pages(&self) -> nat {
        self.num_pages as nat
    }

    /// What a well-formed pager guarantees of its pages.
    pub proof fn lemma_wf(&self)
        requires
            self.wf(),
        ensures
            self@.len() == self.spec_num_pages(),
            forall|i: int| 0 <= i < self@.len() ==> #[trigger] self@[i].len() == PAGE_SIZE,
    {
    }

    /// Number of pages the pager holds.
    pub fn num_pages(&self) -> (n: u32)
        requires
            self.wf(),
        ensures
            n == self.spec_num_pages(),
    {
        self.num_pages
    }

    /// A copy of page `page_num`, loading a zero page for every page up to
    /// it that the pager does not hold yet.
    pub fn get_page(&mut self, page_num: u32) -> (page: Page)
        requires
            old(self).wf(),
            page_num < TABLE_MAX_PAGES,
        ensures
            final(self).wf(),
            page_num < old(self).spec_num_pages() ==> final(self)@ == old(self)@,
            page_num >= old(self).spec_num_pages() ==> final(self)@ == old(self)@ + Seq::new(
                (page_num + 1 - old(self).spec_num_pages()) as nat,
                |i: int| zero_page(),
            ),
            page@ == final(self)@[page_num as int],
            final(self).spec_num_pages() == final(self)@.len(),
    {
        let ghost old_pages = self@;
        while self.num_pages <= page_num
            invariant
                self.wf(),
                page_num < TABLE_MAX_PAGES,
                old(self).wf(),
                old_pages == old(self)@,
                self.num_pages <= page_num ==> old(self).num_pages <= self.num_pages,
                page_num < old(self).num_pages ==> self@ == old_pages,
                page_num >= old(self).num_pages ==> {
                    &&& old(self).num_pages <= self.num_pages <= page_num + 1
                    &&& self@ == old_pages + Seq::new(
                        (self.num_pages - old(self).num_pages) as nat,
                        |i: int| zero_page(),
                    )
                },
            decreases page_num + 1 - self.num_pages,
        {
            let z: Page = [0u8; PAGE_SIZE];
            proof {
                assert(z@ =~= zero_page());
            }
            let ghost before = self@;
            self.pages.push(z);
            self.num_pages = self.num_pages + 1;
            proof {
                assert(self@ =~= before.push(zero_page()));
                assert(self@ =~= old_pages + Seq::new(
                    (self.num_pages - old(self).num_pages) as nat,
                    |i: int| zero_page(),
                ));
            }
        }
        self.pages[page_num as usize]
    }

    /// Page number of the next page that is not in use yet.
    pub fn get_unused_page_num(&self) -> (n: u32)
        requires
            self.wf(),
        ensures
            n == self.spec_num_pages(),
    {
        self.num_pages
    }

    /// A copy of page `page_num`, which the pager holds.
    pub fn page(&self, page_num: u32) -> (page: Page)
        requires
            self.wf(),
            page_num < self.spec_num_pages(),
        ensures
            page@ == self@[page_num as int],
    {
        self.pages[page_num as usize]
    }

    /// Store `page` as page `page_num`, which the pager holds.
    pub fn set_page(&mut self, page_num: u32, page: Page)
        requires
            old(self).wf(),
            page_num < old(self).spec_num_pages(),
        ensures
            final(self).wf(),
            final(self).spec_num_pages() == old(self).spec_num_pages(),
            final(self)@ == old(self)@.update(page_num as int, page@),
    {
        self.pages.set(page_num as usize, page);
        proof {
            assert(self@ =~= old(self)@.update(page_num as int, page@));
        }
    }

    /// The bytes of page `page_num`, to be written to the file at
    /// `page_num * PAGE_SIZE`; an error for a page the pager does not hold.
    pub fn pager_flush(&self, page_num: u32) -> (r: Result<&Page, ()>)
        requires
            self.wf(),
        ensures
            page_num < self.spec_num_pages() <==> r is Ok,
            r matches Ok(page) ==> page@ == self@[page_num as int],
    {
        if page_num >= self.num_pages {
            return Err(());
        }
        Ok(&self.pages[page_num as usize])
    }
}

/// Copy the page that starts at `start` out of `bytes`.
fn page_from_bytes(bytes: &[u8], start: usize) -> (page: Page)
    requires
        start + PAGE_SIZE <= bytes@.len(),
    ensures
        page@ == bytes@.subrange(start as int, start + PAGE_SIZE),
{
    let n = bytes.len();
    let mut page: Page = [0u8; PAGE_SIZE];
    let mut i: usize = 0;
    while i < PAGE_SIZE
        invariant
            n == bytes@.len(),
            start + PAGE_SIZE <= n,
            0 <= i <= PAGE_SIZE,
            page@.len() == PAGE_SIZE,
            forall|j: int| 0 <= j < i ==> page@[j] == bytes@[start + j],
        decreases PAGE_SIZE - i,
    {
        page[i] = bytes[start + i];
        i += 1;
    }
    assert(page@ =~= bytes@.subrange(start as int, start + PAGE_SIZE));
    page
}

/// Split the contents of a database file into its pages. The file's
/// length is a `u32`, as the file format records it.
pub fn pager_open(file: &[u8]) -> (r: Result<Pager, PagerError>)
    requires
        file@.len() <= u32::MAX,
    ensures
        match r {
            Ok(pager) => {
                &&& file@.len() % (PAGE_SIZE as nat) == 0
                &&& pager.wf()
                &&& pager@ == pages_of_bytes(file@)
                &&& pager.spec_num_pages() == file@.len() / (PAGE_SIZE as nat)
            },
            Err(PagerError::NotWholePages) => file@.len() % (PAGE_SIZE as nat) != 0,
        },
{
    let file_length = file.len();
    if file_length % PAGE_SIZE != 0 {
        return Err(PagerError::NotWholePages);
    }
    let num_pages = file_length / PAGE_SIZE;
    let mut pages: Vec<Page> = Vec::new();
    let mut i: usize = 0;
    while i < num_pages
        invariant
            file_length == file@.len(),
            num_pages == file_length / PAGE_SIZE,
            file_length <= u32::MAX,
            file_length % PAGE_SIZE == 0,
            0 <= i <= num_pages,
            pages@.len() == i,
            forall|j: int|
                0 <= j < i ==> #[trigger] pages@[j]@ == file@.subrange(
                    j * PAGE_SIZE,
                    j * PAGE_SIZE + PAGE_SIZE,
                ),
        decreases num_pages - i,
    {
        proof {
            assert(i * PAGE_SIZE + PAGE_SIZE <= num_pages * PAGE_SIZE) by (nonlinear_arith)
                requires
                    i < num_pages,
            ;
            assert(num_pages * PAGE_SIZE == file_length) by (nonlinear_arith)
                requires
                    num_pages == file_length / 4096,
                    file_length % 4096 == 0,
            ;
        }
        let page = page_from_bytes(file, i * PAGE_SIZE);
        pages.push(page);
        i += 1;
    }
    let pager = Pager { num_pages: num_pages as u32, pages };
    proof {
        assert(pager@ =~= pages_of_bytes(file@));
    }
    Ok(pager)
}

/// The bytes of a file that stores `pages` one after another.
pub open spec fn file_bytes(pages: Seq<Seq<u8>>) -> Seq<u8>
    decreases pages.len(),
{
    if pages.len() == 0 {
        Seq::empty()
    } else {
        file_bytes(pages.drop_last()) + pages.last()
    }
}

/// Splitting the bytes of stored pages into pages gives the pages back.
pub proof fn lemma_file_bytes(pages: Seq<Seq<u8>>)
    requires
        forall|i: int| 0 <= i < pages.len() ==> #[trigger] pages[i].len() == PAGE_SIZE,
    ensures
        file_bytes(pages).len() == pages.len() * PAGE_SIZE,
        pages_of_bytes(file_bytes(pages)) == pages,
    decreases pages.len(),
{
    let b = file_bytes(pages);
    if pages.len() > 0 {
        let pre = pages.drop_last();
        lemma_file_bytes(pre);
        let a = file_bytes(pre);
        assert(b == a + pages.last());
        assert forall|i: int| 0 <= i < pages.len() implies #[trigger] b.subrange(
            i * PAGE_SIZE,
            i * PAGE_SIZE + PAGE_SIZE,
        ) == pages[i] by {
            if i < pages.len() - 1 {
                assert(pages_of_bytes(a)[i] == pre[i]);
                assert(b.subrange(i * PAGE_SIZE, i * PAGE_SIZE + PAGE_SIZE) =~= a.subrange(
                    i * PAGE_SIZE,
                    i * PAGE_SIZE + PAGE_SIZE,
                ));
            } else {
                assert(b.subrange(i * PAGE_SIZE, i * PAGE_SIZE + PAGE_SIZE) =~= pages.last());
            }
        }
    }
    assert(b.len() / (PAGE_SIZE as nat) == pages.len()) by {
        vstd::arithmetic::div_mod::lemma_div_multiples_vanish(pages.len() as int, PAGE_SIZE as int);
    }
    assert(pages_of_bytes(b) =~= pages);
}

} // verus!
