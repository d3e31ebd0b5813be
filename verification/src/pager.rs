//! Page cache over a database file image.
//!
//! The pager holds the committed file (`disk`, page by page) and a working
//! copy (`cache`) in which the current transaction's writes live; `dirty`
//! marks the pages written since the last commit. Committing moves the dirty
//! pages into the committed image and queues them, as one batch, for the
//! caller to make durable (write-ahead log first, then the file). Rolling
//! back forgets them. File and log I/O are the caller's: the pager decides.
use vstd::prelude::*;
use crate::text::{concat, decimal, decimal_string};
use crate::wal::{recover, records_model, recovered, WalRecord, PAGE_SIZE};

verus! {

/// Largest number of pages a file may have.
pub const MAX_PAGES: usize = 1024;

/// A page of zeros.
pub open spec fn zero_page() -> Seq<u8> {
    Seq::new(PAGE_SIZE as nat, |i: int| 0u8)
}

/// The pages written by one commit, to be made durable under one transaction id.
pub struct CommitBatch {
    pub txn_id: u64,
    pub pages: Vec<WalRecord>,
}

/// The state of a pager as the rest of the library sees it.
pub struct PagerModel {
    /// The working page contents (cache slots; pages past them read as zeros).
    pub pages: Seq<Seq<u8>>,
    /// The committed file, page by page.
    pub disk: Seq<Seq<u8>>,
    /// Which cache slots hold changes not yet committed.
    pub dirty: Seq<bool>,
    /// Length of the working file, in pages.
    pub file_pages: nat,
    pub in_transaction: bool,
    /// Id of the next transaction to be logged.
    pub txn_id: u64,
    /// Commits not yet handed to the caller, oldest first.
    pub pending: Seq<(u64, Seq<(u32, Seq<u8>)>)>,
}

impl PagerModel {
    /// Working contents of page `n`.
    pub open spec fn page(self, n: int) -> Seq<u8> {
        if 0 <= n < self.pages.len() {
            self.pages[n]
        } else {
            zero_page()
        }
    }

    /// Committed contents of page `n`.
    pub open spec fn committed_page(self, n: int) -> Seq<u8> {
        if 0 <= n < self.disk.len() {
            self.disk[n]
        } else {
            zero_page()
        }
    }

    /// Whether page `n` holds an uncommitted change.
    pub open spec fn is_dirty(self, n: int) -> bool {
        0 <= n < self.dirty.len() && self.dirty[n]
    }
}

/// Page cache + committed file image.
pub struct Pager {
    disk: Vec<Vec<u8>>,
    cache: Vec<Vec<u8>>,
    dirty: Vec<bool>,
    file_pages: usize,
    in_transaction: bool,
    txn_id: u64,
    pending: Vec<CommitBatch>,
}

/// The model of a commit batch.
pub open spec fn batch_model(b: CommitBatch) -> (u64, Seq<(u32, Seq<u8>)>) {
    (b.txn_id, records_model(b.pages@))
}

/// The contents of a list of pages.
pub open spec fn pages_model(s: Seq<Vec<u8>>) -> Seq<Seq<u8>> {
    s.map_values(|p: Vec<u8>| p@)
}

/// The models of a list of commit batches.
pub open spec fn batches_model(s: Seq<CommitBatch>) -> Seq<(u64, Seq<(u32, Seq<u8>)>)> {
    s.map_values(|b: CommitBatch| batch_model(b))
}

impl View for Pager {
    type V = PagerModel;

    closed spec fn view(&self) -> PagerModel {
        PagerModel {
            pages: pages_model(self.cache@),
            disk: pages_model(self.disk@),
            dirty: self.dirty@,
            file_pages: self.file_pages as nat,
            in_transaction: self.in_transaction,
            txn_id: self.txn_id,
            pending: batches_model(self.pending@),
        }
    }
}

/// The invariant of a pager, stated over its model.
pub open spec fn pager_wf(m: PagerModel) -> bool {
    &&& m.dirty.len() == m.pages.len()
    &&& m.disk.len() <= m.file_pages <= m.pages.len()
    &&& forall|i: int| 0 <= i < m.pages.len() ==> (#[trigger] m.pages[i]).len() == PAGE_SIZE
    &&& forall|i: int| 0 <= i < m.disk.len() ==> (#[trigger] m.disk[i]).len() == PAGE_SIZE
    &&& forall|i: int|
        0 <= i < m.pages.len() && !m.dirty[i] ==> #[trigger] m.pages[i] == m.committed_page(i)
    &&& forall|i: int| 0 <= i < m.pages.len() && #[trigger] m.dirty[i] ==> i < m.file_pages && i < MAX_PAGES
    &&& (m.file_pages == m.disk.len() || m.is_dirty(m.file_pages - 1))
}

/// Every page reads as a full page.
pub proof fn lemma_page_len(m: PagerModel, n: int)
    requires
        pager_wf(m),
    ensures
        m.page(n).len() == PAGE_SIZE,
{
}

/// Pages at or past the end of the working file read as zeros.
pub proof fn lemma_past_end(m: PagerModel, n: int)
    requires
        pager_wf(m),
        n >= m.file_pages,
    ensures
        m.page(n) == zero_page(),
{
    if n < m.pages.len() {
        assert(!m.dirty[n]);
        assert(m.pages[n] == m.committed_page(n));
    }
}

/// The working file after committing: its first `file_pages` pages.
pub open spec fn committed_after(m: PagerModel) -> Seq<Seq<u8>> {
    Seq::new(m.file_pages, |i: int| m.page(i))
}

/// The dirty pages of `m`, in page order, as log records.
pub open spec fn dirty_pages(m: PagerModel, n: nat) -> Seq<(u32, Seq<u8>)>
    decreases n,
{
    if n == 0 {
        Seq::empty()
    } else {
        let i = (n - 1) as int;
        if m.is_dirty(i) {
            dirty_pages(m, (n - 1) as nat).push((i as u32, m.page(i)))
        } else {
            dirty_pages(m, (n - 1) as nat)
        }
    }
}

fn zero_page_vec() -> (p: Vec<u8>)
    ensures
        p@ == zero_page(),
{
    let mut p: Vec<u8> = Vec::with_capacity(PAGE_SIZE);
    let mut i: usize = 0;
    while i < PAGE_SIZE
        invariant
            i <= PAGE_SIZE,
            p@ == Seq::new(i as nat, |j: int| 0u8),
        decreases PAGE_SIZE - i,
    {
        p.push(0u8);
        i = i + 1;
        assert(p@ =~= Seq::new(i as nat, |j: int| 0u8));
    }
    p
}

fn copy_page(p: &Vec<u8>) -> (q: Vec<u8>)
    ensures
        q@ == p@,
{
    let mut q: Vec<u8> = Vec::with_capacity(p.len());
    let mut i: usize = 0;
    while i < p.len()
        invariant
            i <= p@.len(),
            q@ == p@.subrange(0, i as int),
        decreases p@.len() - i,
    {
        q.push(p[i]);
        i = i + 1;
        assert(q@ =~= p@.subrange(0, i as int));
    }
    assert(q@ =~= p@);
    q
}

fn copy_pages(ps: &Vec<Vec<u8>>, n: usize) -> (qs: Vec<Vec<u8>>)
    requires
        n <= ps@.len(),
    ensures
        pages_model(qs@) == pages_model(ps@.subrange(0, n as int)),
{
    let mut qs: Vec<Vec<u8>> = Vec::with_capacity(n);
    let mut i: usize = 0;
    while i < n
        invariant
            i <= n <= ps@.len(),
            qs@.len() == i,
            forall|j: int| 0 <= j < i ==> #[trigger] qs@[j]@ == ps@[j]@,
        decreases n - i,
    {
        qs.push(copy_page(&ps[i]));
        i = i + 1;
    }
    assert(pages_model(qs@) =~= pages_model(ps@.subrange(0, n as int)));
    qs
}

/// The error for a page past the file's limit: "Page {n} exceeds max 1024".
pub open spec fn page_limit_text(page_num: nat) -> Seq<char> {
    "Page "@ + decimal(page_num) + " exceeds max 1024"@
}

/// "Page {n} exceeds max 1024".
fn page_limit_error(page_num: u32) -> (s: String)
    ensures
        s@ == page_limit_text(page_num as nat),
{
    let s = concat("Page ", decimal_string(page_num as u64).as_str());
    concat(s.as_str(), " exceeds max 1024")
}

/// `m` with page `idx` replaced by `q`.
pub open spec fn with_page(m: PagerModel, idx: int, q: Seq<u8>) -> PagerModel {
    PagerModel { pages: m.pages.update(idx, q), ..m }
}

proof fn lemma_set_page(m: PagerModel, idx: int)
    requires
        pager_wf(m),
        0 <= idx < m.pages.len(),
        m.dirty[idx],
    ensures
        forall|q: Seq<u8>| q.len() == PAGE_SIZE ==> #[trigger] pager_wf(with_page(m, idx, q)),
        forall|q: Seq<u8>, n: int| n != idx ==> #[trigger] with_page(m, idx, q).page(n) == m.page(n),
        forall|q: Seq<u8>| #[trigger] with_page(m, idx, q).page(idx) == q,
{
    assert forall|q: Seq<u8>| q.len() == PAGE_SIZE implies #[trigger] pager_wf(with_page(m, idx, q)) by {
        let f = with_page(m, idx, q);
        assert forall|i: int| 0 <= i < f.pages.len() implies (#[trigger] f.pages[i]).len() == PAGE_SIZE by {
            if i != idx {
                assert(f.pages[i] == m.pages[i]);
            }
        }
        assert forall|i: int| 0 <= i < f.pages.len() && !f.dirty[i] implies #[trigger] f.pages[i] == f.committed_page(i) by {
            assert(f.pages[i] == m.pages[i]);
        }
    }
}

impl Pager {
    /// The invariant of the pager.
    pub open spec fn wf(&self) -> bool {
        pager_wf(self@)
    }

    /// A pager over an empty file.
    pub fn new() -> (p: Pager)
        ensures
            p.wf(),
            p@.pages.len() == 0,
            p@.disk.len() == 0,
            p@.file_pages == 0,
            !p@.in_transaction,
            p@.txn_id == 0,
            p@.pending.len() == 0,
    {
        let p = Pager {
            disk: Vec::new(),
            cache: Vec::new(),
            dirty: Vec::new(),
            file_pages: 0,
            in_transaction: false,
            txn_id: 0,
            pending: Vec::new(),
        };
        assert(p@.pages =~= Seq::<Seq<u8>>::empty());
        assert(p@.disk =~= Seq::<Seq<u8>>::empty());
        p
    }

    pub fn num_pages(&self) -> (n: u32)
        requires
            self.wf(),
        ensures
            n == self@.file_pages as u32,
            self@.file_pages <= u32::MAX ==> n == self@.file_pages,
    {
        self.file_pages as u32
    }

    pub fn in_transaction(&self) -> (b: bool)
        ensures
            b == self@.in_transaction,
    {
        self.in_transaction
    }

    /// Read a page by number. Returns an owned copy.
    pub fn read_page(&self, page_num: u32) -> (r: Result<Vec<u8>, String>)
        requires
            self.wf(),
        ensures
            match r {
                Ok(p) => page_num < MAX_PAGES && p@ == self@.page(page_num as int),
                Err(e) => page_num >= MAX_PAGES && e@ == page_limit_text(page_num as nat),
            },
    {
        let idx = page_num as usize;
        if idx >= MAX_PAGES {
            return Err(page_limit_error(page_num));
        }
        if idx < self.cache.len() {
            Ok(copy_page(&self.cache[idx]))
        } else {
            Ok(zero_page_vec())
        }
    }

    /// Makes sure the cache has a slot for page `idx` (pages past the file read as zeros).
    fn load(&mut self, idx: usize)
        requires
            old(self).wf(),
            idx < MAX_PAGES,
        ensures
            final(self).wf(),
            idx < final(self)@.pages.len(),
            forall|n: int| #[trigger] final(self)@.page(n) == old(self)@.page(n),
            forall|n: int| #[trigger] final(self)@.is_dirty(n) == old(self)@.is_dirty(n),
            final(self)@.disk == old(self)@.disk,
            final(self)@.file_pages == old(self)@.file_pages,
            final(self)@.in_transaction == old(self)@.in_transaction,
            final(self)@.txn_id == old(self)@.txn_id,
            final(self)@.pending == old(self)@.pending,
    {
        while self.cache.len() <= idx
            invariant
                self.wf(),
                idx < MAX_PAGES,
                forall|n: int| #[trigger] self@.page(n) == old(self)@.page(n),
                forall|n: int| #[trigger] self@.is_dirty(n) == old(self)@.is_dirty(n),
                self@.disk == old(self)@.disk,
                self@.file_pages == old(self)@.file_pages,
                self@.in_transaction == old(self)@.in_transaction,
                self@.txn_id == old(self)@.txn_id,
                self@.pending == old(self)@.pending,
            decreases MAX_PAGES - self.cache@.len(),
        {
            let ghost before = self@;
            let z = zero_page_vec();
            self.cache.push(z);
            self.dirty.push(false);
            proof {
                let m = self@;
                assert(m.pages =~= before.pages.push(zero_page()));
                assert(m.dirty =~= before.dirty.push(false));
                assert forall|n: int| #[trigger] m.page(n) == before.page(n) by {}
                assert forall|n: int| #[trigger] m.is_dirty(n) == before.is_dirty(n) by {}
            }
        }
    }

    /// Read a page by number through the cache. Returns an owned copy.
    pub fn get_page(&mut self, page_num: u32) -> (r: Result<Vec<u8>, String>)
        requires
            old(self).wf(),
        ensures
            final(self).wf(),
            forall|n: int| #[trigger] final(self)@.page(n) == old(self)@.page(n),
            forall|n: int| #[trigger] final(self)@.is_dirty(n) == old(self)@.is_dirty(n),
            final(self)@.disk == old(self)@.disk,
            final(self)@.file_pages == old(self)@.file_pages,
            final(self)@.in_transaction == old(self)@.in_transaction,
            final(self)@.txn_id == old(self)@.txn_id,
            final(self)@.pending == old(self)@.pending,
            match r {
                Ok(p) => page_num < MAX_PAGES && p@ == old(self)@.page(page_num as int),
                Err(_) => page_num >= MAX_PAGES,
            },
    {
        let idx = page_num as usize;
        if idx >= MAX_PAGES {
            return Err(page_limit_error(page_num));
        }
        self.load(idx);
        assert(self@.pages[idx as int] == self.cache@[idx as int]@);
        assert(self@.page(idx as int) == old(self)@.page(idx as int));
        Ok(copy_page(&self.cache[idx]))
    }

    /// Writes page `page_num`: the page is marked dirty and the file is
    /// extended to cover it.
    pub fn write_page(&mut self, page_num: u32, data: &[u8]) -> (r: Result<(), String>)
        requires
            old(self).wf(),
            data@.len() == PAGE_SIZE,
        ensures
            final(self).wf(),
            match r {
                Ok(_) => {
                    &&& page_num < MAX_PAGES
                    &&& final(self)@.page(page_num as int) == data@
                    &&& forall|n: int|
                        n != page_num ==> #[trigger] final(self)@.page(n) == old(self)@.page(n)
                    &&& forall|n: int|
                        n != page_num ==> #[trigger] final(self)@.is_dirty(n) == old(self)@.is_dirty(n)
                    &&& final(self)@.is_dirty(page_num as int)
                    &&& final(self)@.disk == old(self)@.disk
                    &&& final(self)@.file_pages == if page_num as nat + 1 > old(self)@.file_pages {
                        page_num as nat + 1
                    } else {
                        old(self)@.file_pages
                    }
                    &&& final(self)@.in_transaction == old(self)@.in_transaction
                    &&& final(self)@.txn_id == old(self)@.txn_id
                    &&& final(self)@.pending == old(self)@.pending
                },
                Err(_) => page_num >= MAX_PAGES && *final(self) == *old(self),
            },
    {
        let idx = page_num as usize;
        if idx >= MAX_PAGES {
            return Err(page_limit_error(page_num));
        }
        self.load(idx);
        let ghost after_load = self@;
        if idx + 1 > self.file_pages {
            self.file_pages = idx + 1;
        }
        self.dirty.set(idx, true);
        let ghost mid = self@;
        proof {
            lemma_set_page(mid, idx as int);
            assert(mid.pages == after_load.pages);
            assert forall|n: int| n != idx implies #[trigger] mid.is_dirty(n) == old(self)@.is_dirty(n) by {
                assert(after_load.is_dirty(n) == old(self)@.is_dirty(n));
            }
        }
        let page = vstd::slice::slice_to_vec(data);
        self.cache.set(idx, page);
        assert(self@.pages =~= mid.pages.update(idx as int, data@));
        assert(self@ == with_page(mid, idx as int, data@));
        proof {
            assert forall|n: int| n != idx implies #[trigger] self@.page(n) == old(self)@.page(n) by {
                assert(with_page(mid, idx as int, data@).page(n) == mid.page(n));
                assert(after_load.page(n) == old(self)@.page(n));
            }
            assert(self@.dirty == mid.dirty);
            assert forall|n: int| n != idx implies #[trigger] self@.is_dirty(n) == old(self)@.is_dirty(n) by {
                assert(mid.is_dirty(n) == old(self)@.is_dirty(n));
            }
        }
        Ok(())
    }

    /// Extends the file by one zeroed page and returns its number.
    pub fn allocate_page(&mut self) -> (r: Result<u32, String>)
        requires
            old(self).wf(),
        ensures
            final(self).wf(),
            match r {
                Ok(n) => {
                    &&& n == old(self)@.file_pages
                    &&& n < MAX_PAGES
                    &&& final(self)@.file_pages == n + 1
                    &&& final(self)@.page(n as int) == zero_page()
                    &&& final(self)@.is_dirty(n as int)
                    &&& forall|k: int| k != n ==> #[trigger] final(self)@.page(k) == old(self)@.page(k)
                    &&& forall|k: int|
                        k != n ==> #[trigger] final(self)@.is_dirty(k) == old(self)@.is_dirty(k)
                },
                Err(_) => old(self)@.file_pages >= MAX_PAGES && *final(self) == *old(self),
            },
            final(self)@.disk == old(self)@.disk,
            final(self)@.in_transaction == old(self)@.in_transaction,
            final(self)@.txn_id == old(self)@.txn_id,
            final(self)@.pending == old(self)@.pending,
    {
        let page_num = self.file_pages;
        if page_num >= MAX_PAGES {
            return Err(page_limit_error(page_num as u32));
        }
        proof {
            assert(!self@.is_dirty(page_num as int));
            assert(self@.page(page_num as int) == zero_page());
        }
        let z = zero_page_vec();
        match self.write_page(page_num as u32, z.as_slice()) {
            Ok(_) => {},
            Err(e) => {
                return Err(e);
            },
        }
        Ok(page_num as u32)
    }
}

/// The pages of a file image.
pub open spec fn pages_of(file: Seq<u8>) -> Seq<Seq<u8>> {
    Seq::new(file.len() / (PAGE_SIZE as nat), |i: int| file.subrange(i * PAGE_SIZE, (i + 1) * PAGE_SIZE))
}

/// A file (page by page) after writing `data` at page `n`; pages between the
/// old end and `n` read as zeros.
pub open spec fn set_page(pages: Seq<Seq<u8>>, n: int, data: Seq<u8>) -> Seq<Seq<u8>> {
    if n < pages.len() {
        pages.update(n, data)
    } else {
        Seq::new((n + 1) as nat, |i: int| if i < pages.len() { pages[i] } else if i == n { data } else { zero_page() })
    }
}

/// A file after replaying page writes in order.
pub open spec fn apply_writes(pages: Seq<Seq<u8>>, writes: Seq<(u32, Seq<u8>)>) -> Seq<Seq<u8>>
    decreases writes.len(),
{
    if writes.len() == 0 {
        pages
    } else {
        let last = writes.last();
        set_page(apply_writes(pages, writes.drop_last()), last.0 as int, last.1)
    }
}

impl Pager {
    /// Begin an explicit transaction.
    pub fn begin(&mut self) -> (r: Result<(), String>)
        requires
            old(self).wf(),
        ensures
            final(self).wf(),
            r is Err <==> old(self)@.in_transaction,
            r is Ok ==> (final(self)@ == (PagerModel { in_transaction: true, ..old(self)@ })),
            r is Err ==> (*final(self) == *old(self)),
    {
        if self.in_transaction {
            return Err(String::from_str("Already in a transaction."));
        }
        self.in_transaction = true;
        Ok(())
    }

    /// Commit: the dirty pages become the committed file and are queued,
    /// in page order, as one batch under the current transaction id (to be
    /// written to the log, then to the file).
    pub fn commit(&mut self) -> (r: Result<(), String>)
        requires
            old(self).wf(),
        ensures
            r is Ok,
            final(self).wf(),
            final(self)@.disk == committed_after(old(self)@),
            final(self)@.file_pages == old(self)@.file_pages,
            forall|n: int| #[trigger] final(self)@.page(n) == old(self)@.page(n),
            forall|n: int| !#[trigger] final(self)@.is_dirty(n),
            !final(self)@.in_transaction,
            final(self)@.txn_id == old(self)@.txn_id.wrapping_add(1),
            final(self)@.pending == old(self)@.pending.push(
                (old(self)@.txn_id, dirty_pages(old(self)@, old(self)@.pages.len())),
            ),
    {
        let ghost m = self@;
        let n = self.cache.len();
        let mut records: Vec<WalRecord> = Vec::new();
        let mut i: usize = 0;
        while i < n
            invariant
                i <= n,
                n == self.cache@.len(),
                self@ == m,
                self.wf(),
                records_model(records@) == dirty_pages(m, i as nat),
            decreases n - i,
        {
            if self.dirty[i] {
                let data = copy_page(&self.cache[i]);
                let ghost old_r = records@;
                records.push(WalRecord { page_num: i as u32, data });
                proof {
                    assert(m.pages[i as int] == self.cache@[i as int]@);
                    assert(records_model(records@) =~= records_model(old_r).push((i as u32, m.page(i as int))));
                }
            }
            i = i + 1;
        }
        let batch = CommitBatch { txn_id: self.txn_id, pages: records };
        let ghost bm = batch_model(batch);
        let ghost old_pending = self.pending@;
        self.pending.push(batch);
        proof {
            assert(self.pending@ == old_pending.push(batch));
            assert(batches_model(self.pending@) =~= batches_model(old_pending).push(bm));
        }
        self.txn_id = self.txn_id.wrapping_add(1);
        let new_disk = copy_pages(&self.cache, self.file_pages);
        self.disk = new_disk;
        let mut d: Vec<bool> = Vec::new();
        let mut j: usize = 0;
        while j < n
            invariant
                j <= n,
                d@.len() == j,
                forall|k: int| 0 <= k < j ==> !d@[k],
            decreases n - j,
        {
            d.push(false);
            j = j + 1;
        }
        self.dirty = d;
        self.in_transaction = false;
        proof {
            let f = self@;
            assert(f.pending =~= m.pending.push(bm));
            assert forall|k: int| 0 <= k < m.file_pages implies #[trigger] f.disk[k] == committed_after(m)[k] by {
                assert(m.page(k) == m.pages[k]);
            }
            assert(f.disk =~= committed_after(m));
            assert forall|k: int| #[trigger] f.page(k) == m.page(k) by {}
            assert forall|k: int| 0 <= k < f.pages.len() && !f.dirty[k] implies #[trigger] f.pages[k] == f.committed_page(k) by {
                if k >= m.file_pages {
                    assert(!m.dirty[k]);
                    assert(m.pages[k] == m.committed_page(k));
                }
            }
        }
        Ok(())
    }

    /// Rollback: forget every uncommitted change.
    pub fn rollback(&mut self) -> (r: Result<(), String>)
        requires
            old(self).wf(),
        ensures
            r is Ok,
            final(self).wf(),
            final(self)@.disk == old(self)@.disk,
            final(self)@.file_pages == old(self)@.disk.len(),
            forall|n: int| #[trigger] final(self)@.page(n) == old(self)@.committed_page(n),
            forall|n: int| !#[trigger] final(self)@.is_dirty(n),
            !final(self)@.in_transaction,
            final(self)@.txn_id == old(self)@.txn_id,
            final(self)@.pending == old(self)@.pending,
    {
        let ghost m = self@;
        let k = self.disk.len();
        self.cache = copy_pages(&self.disk, k);
        let mut d: Vec<bool> = Vec::new();
        let mut j: usize = 0;
        while j < k
            invariant
                j <= k,
                d@.len() == j,
                forall|i: int| 0 <= i < j ==> !d@[i],
            decreases k - j,
        {
            d.push(false);
            j = j + 1;
        }
        self.dirty = d;
        self.file_pages = k;
        self.in_transaction = false;
        proof {
            let f = self@;
            assert(f.pages =~= m.disk);
            assert forall|n: int| #[trigger] f.page(n) == m.committed_page(n) by {}
        }
        Ok(())
    }

    /// Flush: commit, for callers that aren't using explicit transactions.
    pub fn flush(&mut self) -> (r: Result<(), String>)
        requires
            old(self).wf(),
        ensures
            r is Ok,
            final(self).wf(),
            final(self)@.disk == committed_after(old(self)@),
            final(self)@.file_pages == old(self)@.file_pages,
            forall|n: int| #[trigger] final(self)@.page(n) == old(self)@.page(n),
            forall|n: int| !#[trigger] final(self)@.is_dirty(n),
            !final(self)@.in_transaction,
            final(self)@.txn_id == old(self)@.txn_id.wrapping_add(1),
            final(self)@.pending == old(self)@.pending.push(
                (old(self)@.txn_id, dirty_pages(old(self)@, old(self)@.pages.len())),
            ),
    {
        self.commit()
    }

    /// Hands over the commits not yet made durable, oldest first.
    pub fn take_pending(&mut self) -> (batches: Vec<CommitBatch>)
        requires
            old(self).wf(),
        ensures
            final(self).wf(),
            batches_model(batches@) == old(self)@.pending,
            (final(self)@ == (PagerModel { pending: Seq::empty(), ..old(self)@ })),
    {
        let mut out: Vec<CommitBatch> = Vec::new();
        std::mem::swap(&mut out, &mut self.pending);
        proof {
            assert(self@.pending =~= Seq::<(u64, Seq<(u32, Seq<u8>)>)>::empty());
        }
        out
    }
}

/// Whether every write carries a full page of data.
pub open spec fn writes_in_range(writes: Seq<(u32, Seq<u8>)>) -> bool {
    forall|i: int| 0 <= i < writes.len() ==> (#[trigger] writes[i]).1.len() == PAGE_SIZE
}

/// The error for a file whose length is not a whole number of pages.
pub open spec fn bad_length_text(path: Seq<char>, len: nat) -> Seq<char> {
    "Corrupt file '"@ + path + "': length "@ + decimal(len) + " not a multiple of 4096"@
}

/// Whether a file image and its log can be opened: whole pages, and every
/// committed log write a whole page.
pub open spec fn can_open(file: Seq<u8>, wal_log: Seq<u8>) -> bool {
    &&& file.len() % PAGE_SIZE as nat == 0
    &&& writes_in_range(recovered(wal_log))
}

/// The state of a pager just opened over a file image and its log: the
/// committed writes of the log replayed into the file, nothing dirty, and
/// the replayed writes queued as one batch to be made durable again.
pub open spec fn opened_from(m: PagerModel, file: Seq<u8>, wal_log: Seq<u8>) -> bool {
    let writes = recovered(wal_log);
    let pages = apply_writes(pages_of(file), writes);
    &&& pager_wf(m)
    &&& m.disk == pages
    &&& m.file_pages == pages.len()
    &&& forall|n: int| #[trigger] m.page(n) == m.committed_page(n)
    &&& forall|n: int| !#[trigger] m.is_dirty(n)
    &&& !m.in_transaction
    &&& m.txn_id == 0
    &&& m.pending == if writes.len() == 0 {
        Seq::empty()
    } else {
        seq![(0u64, writes)]
    }
}

/// Pages of a file image.
fn split_pages(file: &[u8]) -> (pages: Vec<Vec<u8>>)
    requires
        file@.len() % PAGE_SIZE as nat == 0,
    ensures
        pages_model(pages@) == pages_of(file@),
        forall|j: int| 0 <= j < pages@.len() ==> (#[trigger] pages@[j])@.len() == PAGE_SIZE,
{
    let flen = file.len();
    let n = flen / PAGE_SIZE;
    let mut pages: Vec<Vec<u8>> = Vec::new();
    let mut i: usize = 0;
    while i < n
        invariant
            i <= n,
            n == file@.len() / (PAGE_SIZE as nat),
            file@.len() % PAGE_SIZE as nat == 0,
            flen == file@.len(),
            pages@.len() == i,
            forall|j: int| 0 <= j < i ==> #[trigger] pages@[j]@ == pages_of(file@)[j],
            forall|j: int| 0 <= j < i ==> (#[trigger] pages@[j])@.len() == PAGE_SIZE,
        decreases n - i,
    {
        assert((i + 1) * 4096 <= flen) by (nonlinear_arith)
            requires
                i < n,
                n == flen / 4096,
                flen % 4096 == 0,
        ;
        let p = crate::bytes::copy_range(file, i * 4096, PAGE_SIZE);
        pages.push(p);
        i = i + 1;
    }
    assert(pages_model(pages@) =~= pages_of(file@));
    pages
}

/// Writes `data` at page `n` of a page list, extending it with zero pages as needed.
fn set_page_vec(pages: &mut Vec<Vec<u8>>, n: usize, data: &Vec<u8>)
    ensures
        pages_model(final(pages)@) == set_page(pages_model(old(pages)@), n as int, data@),
{
    let ghost before = pages_model(pages@);
    if n < pages.len() {
        pages.set(n, copy_page(data));
        assert(pages_model(pages@) =~= set_page(before, n as int, data@));
    } else {
        while pages.len() < n
            invariant
                n >= before.len(),
                pages@.len() <= n,
                pages@.len() >= before.len(),
                forall|j: int| 0 <= j < pages@.len() ==> #[trigger] pages@[j]@ == if j < before.len() { before[j] } else { zero_page() },
            decreases n - pages@.len(),
        {
            pages.push(zero_page_vec());
        }
        pages.push(copy_page(data));
        assert(pages_model(pages@) =~= set_page(before, n as int, data@));
    }
}

impl Pager {
    /// Opens a pager over a file image and the bytes of its write-ahead log.
    /// Page writes of committed transactions still in the log are replayed
    /// into the file, in log order, and queued as one batch to be made
    /// durable again; the rest of the log is discarded.
    /// `path` names the file in the errors.
    pub fn open(path: &str, file: &[u8], wal_log: &[u8]) -> (r: Result<Pager, String>)
        ensures
            match r {
                Ok(p) => can_open(file@, wal_log@) && opened_from(p@, file@, wal_log@),
                Err(_) => !can_open(file@, wal_log@),
            },
            file@.len() % PAGE_SIZE as nat != 0 ==> (r matches Err(e) && e@ == bad_length_text(path@, file@.len())),
    {
        if file.len() % PAGE_SIZE != 0 {
            let a = concat("Corrupt file '", path);
            let b = concat(a.as_str(), "': length ");
            let c = concat(b.as_str(), decimal_string(file.len() as u64).as_str());
            return Err(concat(c.as_str(), " not a multiple of 4096"));
        }
        let mut pages = split_pages(file);
        // Crash recovery: replay any committed WAL records.
        let records = recover(wal_log);
        let ghost writes = recovered(wal_log@);
        let ghost initial = pages_of(file@);
        let mut i: usize = 0;
        while i < records.len()
            invariant
                i <= records@.len(),
                records_model(records@) == writes,
                writes == recovered(wal_log@),
                initial == pages_of(file@),
                file@.len() % PAGE_SIZE as nat == 0,
                writes_in_range(writes.take(i as int)),
                pages_model(pages@) == apply_writes(initial, writes.take(i as int)),
                forall|j: int| 0 <= j < pages@.len() ==> (#[trigger] pages@[j])@.len() == PAGE_SIZE,
            decreases records@.len() - i,
        {
            let ghost old_pages = pages@;
            let rec = &records[i];
            assert(writes[i as int] == (rec.page_num, rec.data@));
            if rec.data.len() != PAGE_SIZE {
                proof {
                    assert(!(writes[i as int].1.len() == PAGE_SIZE));
                    assert(!writes_in_range(writes));
                }
                return Err(String::from_str("Corrupt log: a page record of the wrong size."));
            }
            let ghost before = pages_model(pages@);
            set_page_vec(&mut pages, rec.page_num as usize, &rec.data);
            proof {
                let after = set_page(before, rec.page_num as int, rec.data@);
                assert(pages_model(pages@) == after);
                assert(pages@.len() == after.len());
                assert forall|j: int| 0 <= j < pages@.len() implies (#[trigger] pages@[j])@.len() == PAGE_SIZE by {
                    assert(pages_model(pages@)[j] == pages@[j]@);
                    if j < before.len() {
                        assert(before[j] == pages_model(old_pages)[j]);
                    }
                }
                assert(writes.take(i + 1).drop_last() =~= writes.take(i as int));
                assert(writes.take(i + 1).last() == writes[i as int]);
                assert(writes_in_range(writes.take(i + 1))) by {
                    assert forall|k: int| 0 <= k < writes.take(i + 1).len() implies (#[trigger] writes.take(i + 1)[k]).1.len() == PAGE_SIZE by {
                        if k < i {
                            assert(writes.take(i + 1)[k] == writes.take(i as int)[k]);
                        }
                    }
                }
            }
            i = i + 1;
        }
        proof {
            assert(writes.take(records@.len() as int) =~= writes);
        }
        let n = pages.len();
        let cache = copy_pages(&pages, n);
        let mut dirty: Vec<bool> = Vec::new();
        let mut j: usize = 0;
        while j < n
            invariant
                j <= n,
                dirty@.len() == j,
                forall|k: int| 0 <= k < j ==> !dirty@[k],
            decreases n - j,
        {
            dirty.push(false);
            j = j + 1;
        }
        let mut pending: Vec<CommitBatch> = Vec::new();
        if records.len() > 0 {
            pending.push(CommitBatch { txn_id: 0, pages: records });
        }
        let p = Pager { disk: pages, cache, dirty, file_pages: n, in_transaction: false, txn_id: 0, pending };
        proof {
            let m = p@;
            assert(pages_model(p.cache@) =~= pages_model(p.disk@));
            assert(m.pending =~= (if writes.len() == 0 { Seq::empty() } else { seq![(0u64, writes)] }));
        }
        Ok(p)
    }
}

} // verus!

verus! {

/// One past the last dirty page below `k` (0 when there is none).
pub open spec fn dirty_top(m: PagerModel, k: nat) -> nat
    decreases k,
{
    if k == 0 {
        0
    } else if m.is_dirty(k - 1) {
        k
    } else {
        dirty_top(m, (k - 1) as nat)
    }
}

/// Page `i` of the committed file with the dirty pages below `k` written over it.
pub open spec fn written_over(m: PagerModel, k: nat, i: int) -> Seq<u8> {
    if i < k && m.is_dirty(i) {
        m.page(i)
    } else if i < m.disk.len() {
        m.disk[i]
    } else {
        zero_page()
    }
}

proof fn lemma_dirty_top(m: PagerModel, k: nat)
    ensures
        dirty_top(m, k) <= k,
        forall|i: int| 0 <= i < k && #[trigger] m.is_dirty(i) ==> i < dirty_top(m, k),
        dirty_top(m, k) > 0 ==> m.is_dirty(dirty_top(m, k) - 1),
    decreases k,
{
    if k > 0 {
        lemma_dirty_top(m, (k - 1) as nat);
    }
}

proof fn lemma_apply_dirty(m: PagerModel, k: nat)
    requires
        pager_wf(m),
        k <= m.pages.len(),
    ensures
        apply_writes(m.disk, dirty_pages(m, k)).len() == if m.disk.len() >= dirty_top(m, k) {
            m.disk.len()
        } else {
            dirty_top(m, k)
        },
        forall|i: int|
            0 <= i < apply_writes(m.disk, dirty_pages(m, k)).len() ==> #[trigger] apply_writes(
                m.disk,
                dirty_pages(m, k),
            )[i] == written_over(m, k, i),
    decreases k,
{
    if k > 0 {
        let j = (k - 1) as nat;
        lemma_apply_dirty(m, j);
        lemma_dirty_top(m, j);
        let a = apply_writes(m.disk, dirty_pages(m, j));
        if m.is_dirty(j as int) {
            let d = dirty_pages(m, j).push((j as u32, m.page(j as int)));
            assert(dirty_pages(m, k) == d);
            assert(d.drop_last() =~= dirty_pages(m, j));
            assert((j as u32) as int == j);
            let b = apply_writes(m.disk, d);
            assert(b == set_page(a, j as int, m.page(j as int)));
            assert forall|i: int| 0 <= i < b.len() implies #[trigger] b[i] == written_over(m, k, i) by {
                if i != j && i < a.len() {
                    assert(b[i] == a[i]);
                    assert(a[i] == written_over(m, j, i));
                }
            }
        } else {
            assert(dirty_pages(m, k) == dirty_pages(m, j));
            assert forall|i: int|
                0 <= i < a.len() implies #[trigger] a[i] == written_over(m, k, i) by {
                assert(a[i] == written_over(m, j, i));
            }
        }
    } else {
        assert forall|i: int|
            0 <= i < apply_writes(m.disk, dirty_pages(m, k)).len() implies #[trigger] apply_writes(
                m.disk,
                dirty_pages(m, k),
            )[i] == written_over(m, k, i) by {}
    }
}

/// What a commit queues, written over the committed file, is the file as
/// committed: the batch of dirty pages carries every change and nothing else.
pub proof fn lemma_commit_batch_applies(m: PagerModel)
    requires
        pager_wf(m),
    ensures
        apply_writes(m.disk, dirty_pages(m, m.pages.len())) == committed_after(m),
{
    let k = m.pages.len();
    lemma_apply_dirty(m, k);
    lemma_dirty_top(m, k);
    let a = apply_writes(m.disk, dirty_pages(m, k));
    let c = committed_after(m);
    if m.file_pages != m.disk.len() {
        assert(m.is_dirty(m.file_pages - 1));
    }
    assert(a.len() == c.len());
    assert forall|i: int| 0 <= i < c.len() implies a[i] == #[trigger] c[i] by {
        assert(a[i] == written_over(m, k, i));
        if !(m.is_dirty(i)) {
            assert(!m.dirty[i]);
            assert(m.pages[i] == m.committed_page(i));
        }
    }
    assert(a =~= c);
}

} // verus!

verus! {

proof fn lemma_dirty_pages_full(m: PagerModel, k: nat)
    requires
        pager_wf(m),
    ensures
        crate::wal::full_pages(dirty_pages(m, k)),
    decreases k,
{
    if k > 0 {
        lemma_dirty_pages_full(m, (k - 1) as nat);
        lemma_page_len(m, k - 1);
        let d = dirty_pages(m, k);
        let p = dirty_pages(m, (k - 1) as nat);
        if m.is_dirty(k - 1) {
            assert forall|i: int| 0 <= i < d.len() implies (#[trigger] d[i]).1.len() == PAGE_SIZE by {
                if i < p.len() {
                    assert(d[i] == p[i]);
                }
            }
        }
    }
}

/// Crash safety: once a commit's log is written, opening the old file with
/// that log gives the file as committed, whether or not the file itself was
/// written.
pub proof fn lemma_recovery_after_commit(m: PagerModel, file: Seq<u8>)
    requires
        pager_wf(m),
        pages_of(file) == m.disk,
    ensures
        apply_writes(pages_of(file), recovered(crate::wal::commit_log(m.txn_id, dirty_pages(m, m.pages.len()))))
            == committed_after(m),
{
    lemma_dirty_pages_full(m, m.pages.len());
    crate::wal::lemma_commit_log_recovered(m.txn_id, dirty_pages(m, m.pages.len()));
    lemma_commit_batch_applies(m);
}

} // verus!
