//! The page store: a table file held as a dense sequence of fixed-size pages.

use vstd::prelude::*;
use vstd::string::*;

verus! {

/// What can go wrong below the tree.
#[derive(Clone, Copy, Debug, PartialEq, Eq, Structural)]
pub enum BTreeError {
    /// A page was asked for that the store does not hold, or no further
    /// page can be allocated.
    IoError,
    /// The bytes of a page are not those of a node.
    CorruptPage,
}

impl BTreeError {
    /// What the error says.
    pub open spec fn message(self) -> Seq<char> {
        match self {
            BTreeError::IoError => "I/O error"@,
            BTreeError::CorruptPage => "Corrupt page"@,
        }
    }

    /// What the error says.
    pub fn to_string(&self) -> (r: String)
        ensures
            r@ == self.message(),
    {
        match self {
            BTreeError::IoError => "I/O error".to_owned(),
            BTreeError::CorruptPage => "Corrupt page".to_owned(),
        }
    }
}

/// A page of zero bytes.
pub open spec fn zero_page() -> Seq<u8> {
    Seq::new(4096, |i: int| 0u8)
}

/// The pages of one table file, numbered from zero. Page zero is the header.
pub struct PageStore {
    pages: Vec<[u8; 4096]>,
}

impl View for PageStore {
    type V = Seq<Seq<u8>>;

    closed spec fn view(&self) -> Seq<Seq<u8>> {
        Seq::new(self.pages@.len(), |i: int| self.pages@[i]@)
    }
}

impl PageStore {
    /// A store that holds only a zeroed header page.
    pub fn new() -> (r: Self)
        ensures
            r@ == seq![zero_page()],
    {
        let mut pages: Vec<[u8; 4096]> = Vec::new();
        pages.push([0u8; 4096]);
        let r = PageStore { pages };
        assert(r@[0] =~= zero_page());
        assert(r@ =~= seq![zero_page()]);
        r
    }

    /// A store that holds the given pages.
    pub fn from_pages(pages: Vec<[u8; 4096]>) -> (r: Self)
        ensures
            r@ == Seq::new(pages@.len(), |i: int| pages@[i]@),
    {
        PageStore { pages }
    }

    /// The pages of the store, in order.
    pub fn into_pages(self) -> (pages: Vec<[u8; 4096]>)
        ensures
            self@ == Seq::new(pages@.len(), |i: int| pages@[i]@),
    {
        self.pages
    }

    /// Number of pages.
    pub fn len(&self) -> (n: usize)
        ensures
            n == self@.len(),
    {
        self.pages.len()
    }

    /// The bytes of page `id`; fails where the store has no such page.
    pub fn read_page(&self, id: u32) -> (r: Result<[u8; 4096], BTreeError>)
        ensures
            match r {
                Ok(page) => id < self@.len() && page@ == self@[id as int],
                Err(e) => id >= self@.len() && e == BTreeError::IoError,
            },
    {
        if (id as usize) < self.pages.len() {
            Ok(self.pages[id as usize])
        } else {
            Err(BTreeError::IoError)
        }
    }

    /// Overwrites page `id`; fails, changing nothing, where the store has
    /// no such page.
    pub fn write_page(&mut self, id: u32, data: &[u8; 4096]) -> (r: Result<(), BTreeError>)
        ensures
            match r {
                Ok(_) => id < old(self)@.len() && final(self)@ == old(self)@.update(
                    id as int,
                    data@,
                ),
                Err(e) => id >= old(self)@.len() && e == BTreeError::IoError && final(self)@
                    == old(self)@,
            },
    {
        if (id as usize) < self.pages.len() {
            self.pages[id as usize] = *data;
            assert(self@ =~= old(self)@.update(id as int, data@));
            Ok(())
        } else {
            Err(BTreeError::IoError)
        }
    }

    /// Appends a zeroed page and returns its number; fails, changing
    /// nothing, where that number would not fit a page id.
    pub fn allocate_page(&mut self) -> (r: Result<u32, BTreeError>)
        ensures
            match r {
                Ok(id) => {
                    &&& id == old(self)@.len()
                    &&& final(self)@ == old(self)@.push(zero_page())
                },
                Err(e) => {
                    &&& old(self)@.len() > u32::MAX
                    &&& e == BTreeError::IoError
                    &&& final(self)@ == old(self)@
                },
            },
    {
        let n: usize = self.pages.len();
        if n > u32::MAX as usize {
            return Err(BTreeError::IoError);
        }
        self.pages.push([0u8; 4096]);
        proof {
            assert(self@[n as int] =~= zero_page());
            assert(self@ =~= old(self)@.push(zero_page()));
        }
        Ok(n as u32)
    }
}

} // verus!
