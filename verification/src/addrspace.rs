//! The address-space layer: a page-table model for one task.
//!
//! An address space is a set of mapped virtual pages, each carrying
//! permission bits and the bytes of the physical frame that backs it.
//! It maps and unmaps regions with given permissions, translates user
//! virtual addresses (and byte ranges that may cross page boundaries)
//! into kernel-accessible byte buffers, and validates that an address
//! carries required permission bits before any copy occurs.

use vstd::prelude::*;
use vstd::arithmetic::div_mod::{
    lemma_fundamental_div_mod_converse, lemma_div_is_ordered, lemma_fundamental_div_mod,
};
use crate::config::{PAGE_SIZE, MAX_VPN, MAX_STR_LEN};

verus! {

/// Page permission bit: readable.
pub const PERM_R: usize = 2;

/// Page permission bit: writable.
pub const PERM_W: usize = 4;

/// Page permission bit: executable.
pub const PERM_X: usize = 8;

/// Page permission bit: accessible from user mode.
pub const PERM_U: usize = 16;

/// One mapped virtual page: its virtual page number, its permission bits,
/// the physical frame number backing it, and the bytes stored in that frame.
pub struct MappedPage {
    /// Virtual page number.
    pub vpn: usize,
    /// Permission bits of the page-table entry.
    pub perm: usize,
    /// Physical frame number backing this page.
    pub frame: usize,
    /// The bytes stored in the backing frame, exactly one page of them.
    pub data: Vec<u8>,
}

/// An address space: the mapped pages of one task, plus a counter from
/// which fresh physical frame numbers are drawn.
pub struct AddrSpace {
    /// Every mapped virtual page, with distinct virtual page numbers.
    pub pages: Vec<MappedPage>,
    /// Next unused physical frame number.
    pub next_frame: usize,
}

impl AddrSpace {
    /// Well-formedness of a single mapped page.
    pub open spec fn page_wf(p: MappedPage) -> bool {
        &&& p.vpn < MAX_VPN
        &&& p.frame < MAX_VPN
        &&& p.data@.len() == PAGE_SIZE
    }

    /// Well-formedness: every mapped virtual page has exactly one valid
    /// entry at a time, each backed by a full frame of bytes whose number
    /// was drawn below the fresh-frame counter.
    pub open spec fn wf(self) -> bool {
        &&& forall|i: int| 0 <= i < self.pages@.len() ==> Self::page_wf(#[trigger] self.pages@[i])
        &&& forall|i: int, j: int|
                0 <= i < self.pages@.len() && 0 <= j < self.pages@.len() && i != j
                ==> (#[trigger] self.pages@[i]).vpn != (#[trigger] self.pages@[j]).vpn
        &&& forall|i: int| 0 <= i < self.pages@.len()
                ==> (#[trigger] self.pages@[i]).frame < self.next_frame
    }

    /// Whether virtual page `vpn` is mapped.
    pub open spec fn is_mapped(self, vpn: int) -> bool {
        exists|i: int| 0 <= i < self.pages@.len() && (#[trigger] self.pages@[i]).vpn == vpn
    }

    /// Index in `pages` of the entry mapping `vpn` (meaningful when mapped).
    pub open spec fn index_of(self, vpn: int) -> int {
        choose|i: int| 0 <= i < self.pages@.len() && (#[trigger] self.pages@[i]).vpn == vpn
    }

    /// The entry mapping `vpn` (meaningful when mapped).
    pub open spec fn page_at(self, vpn: int) -> MappedPage {
        self.pages@[self.index_of(vpn)]
    }

    /// Permission bits of the page mapping `vpn` (meaningful when mapped).
    pub open spec fn perm_at(self, vpn: int) -> usize {
        self.page_at(vpn).perm
    }

    /// The byte stored at virtual address `va` (meaningful when its page
    /// is mapped).
    pub open spec fn byte_at(self, va: int) -> u8 {
        self.page_at(va / PAGE_SIZE as int).data@[va % PAGE_SIZE as int]
    }

    /// The page containing `va` is mapped with at least the bits `flags`.
    pub open spec fn flag_ok(self, va: int, flags: usize) -> bool {
        &&& self.is_mapped(va / PAGE_SIZE as int)
        &&& self.perm_at(va / PAGE_SIZE as int) & flags == flags
    }

    /// Every page touched by the byte range `[ptr, ptr + len)` is mapped.
    pub open spec fn range_mapped(self, ptr: int, len: int) -> bool {
        forall|vpn: int|
            ptr / PAGE_SIZE as int <= vpn < ptr / PAGE_SIZE as int + page_count(ptr, len)
            ==> #[trigger] self.is_mapped(vpn)
    }

    /// The bytes stored at the byte range `[ptr, ptr + len)` (meaningful
    /// when the range is mapped).
    pub open spec fn bytes_at(self, ptr: int, len: int) -> Seq<u8> {
        Seq::new(len as nat, |i: int| self.byte_at(ptr + i))
    }

    /// A page with a given number sits at a given index.
    pub proof fn lemma_index_of(self, vpn: int, i: int)
        requires
            self.wf(),
            0 <= i < self.pages@.len(),
            self.pages@[i].vpn == vpn,
        ensures
            self.is_mapped(vpn),
            self.index_of(vpn) == i,
            self.page_at(vpn) == self.pages@[i],
    {
        assert(self.is_mapped(vpn));
        let c = self.index_of(vpn);
        assert(0 <= c < self.pages@.len() && self.pages@[c].vpn == vpn);
        if c != i {
            assert(self.pages@[c].vpn != self.pages@[i].vpn);
        }
    }

    /// An empty address space.
    pub fn new() -> (r: AddrSpace)
        ensures
            r.wf(),
            r.pages@.len() == 0,
            r.next_frame == 0,
            forall|vpn: int| !r.is_mapped(vpn),
    {
        AddrSpace { pages: Vec::new(), next_frame: 0 }
    }

    /// Linear walk of the page table: the index of the entry mapping `vpn`.
    fn find_page(&self, vpn: usize) -> (r: Option<usize>)
        requires
            self.wf(),
        ensures
            match r {
                Some(i) => i < self.pages@.len()
                    && self.pages@[i as int].vpn == vpn
                    && self.is_mapped(vpn as int)
                    && self.index_of(vpn as int) == i,
                None => !self.is_mapped(vpn as int),
            },
    {
        let mut i: usize = 0;
        while i < self.pages.len()
            invariant
                self.wf(),
                i <= self.pages@.len(),
                forall|j: int| 0 <= j < i ==> (#[trigger] self.pages@[j]).vpn != vpn,
            decreases self.pages@.len() - i,
        {
            if self.pages[i].vpn == vpn {
                proof { self.lemma_index_of(vpn as int, i as int); }
                return Some(i);
            }
            i = i + 1;
        }
        None
    }

    /// Walks the page table and returns the backing physical byte address
    /// of `va`, or `None` if its page is unmapped.
    pub fn translate(&self, va: usize) -> (r: Option<usize>)
        requires
            self.wf(),
        ensures
            match r {
                Some(pa) => self.is_mapped(va as int / PAGE_SIZE as int)
                    && pa == self.page_at(va as int / PAGE_SIZE as int).frame * PAGE_SIZE
                        + va as int % PAGE_SIZE as int,
                None => !self.is_mapped(va as int / PAGE_SIZE as int),
            },
    {
        let vpn = va / PAGE_SIZE;
        match self.find_page(vpn) {
            Some(i) => {
                let frame = self.pages[i].frame;
                proof {
                    assert(frame < MAX_VPN);
                    assert(frame * PAGE_SIZE + PAGE_SIZE <= MAX_VPN * PAGE_SIZE) by (nonlinear_arith)
                        requires frame < MAX_VPN && frame >= 0;
                }
                Some(frame * PAGE_SIZE + va % PAGE_SIZE)
            },
            None => None,
        }
    }

    /// A mapped virtual page number lies below the address-space bound.
    pub proof fn lemma_mapped_bound(self, vpn: int)
        requires
            self.wf(),
            self.is_mapped(vpn),
        ensures
            0 <= vpn < MAX_VPN,
    {
        let i = choose|i: int|
            0 <= i < self.pages@.len() && (#[trigger] self.pages@[i]).vpn == vpn;
        assert(Self::page_wf(self.pages@[i]));
    }

    /// Reads the byte stored at virtual address `va`, or `None` if the
    /// page containing it is unmapped. No permission bits are consulted:
    /// callers that act on behalf of user code check `addr_flag` first.
    pub fn read_byte(&self, va: usize) -> (r: Option<u8>)
        requires
            self.wf(),
        ensures
            match r {
                Some(b) => self.is_mapped(va as int / PAGE_SIZE as int)
                    && b == self.byte_at(va as int),
                None => !self.is_mapped(va as int / PAGE_SIZE as int),
            },
    {
        let vpn = va / PAGE_SIZE;
        match self.find_page(vpn) {
            Some(i) => Some(self.pages[i].data[va % PAGE_SIZE]),
            None => None,
        }
    }

    /// Whether the page containing `va` is mapped with at least the
    /// permission bits `flags`. Must be consulted, and return true, before
    /// kernel code dereferences a raw user-supplied address; multi-byte
    /// structures must have both their first and last byte checked, since
    /// a structure may straddle a page boundary.
    pub fn addr_flag(&self, va: usize, flags: usize) -> (r: bool)
        requires
            self.wf(),
        ensures
            r == self.flag_ok(va as int, flags),
    {
        let vpn = va / PAGE_SIZE;
        match self.find_page(vpn) {
            Some(i) => self.pages[i].perm & flags == flags,
            None => false,
        }
    }

    /// The first `n` bytes starting at `ptr` are mapped and nonzero.
    pub open spec fn str_prefix_ok(self, ptr: int, n: int) -> bool {
        forall|i: int|
            #![trigger self.byte_at(ptr + i)]
            #![trigger self.is_mapped((ptr + i) / PAGE_SIZE as int)]
            0 <= i < n ==> self.byte_at(ptr + i) != 0
                && self.is_mapped((ptr + i) / PAGE_SIZE as int)
    }

    /// A null-terminated byte string of length `n` starts at `ptr`: the
    /// first `n` bytes are mapped and nonzero, and the byte after them is
    /// mapped and zero.
    pub open spec fn terminated_at(self, ptr: int, n: int) -> bool {
        &&& self.str_prefix_ok(ptr, n)
        &&& self.is_mapped((ptr + n) / PAGE_SIZE as int)
        &&& self.byte_at(ptr + n) == 0
    }

    /// Splits the byte range `[ptr, ptr + len)` into one buffer per
    /// physical page it touches (virtual contiguity does not imply
    /// physical contiguity), in address order; returns `None` if any page
    /// of the range is unmapped. Reassembling the buffers in order yields
    /// exactly the bytes stored in the range.
    pub fn translated_byte_buffer(&self, ptr: usize, len: usize) -> (r: Option<Vec<Vec<u8>>>)
        requires
            self.wf(),
        ensures
            match r {
                Some(bufs) => self.range_mapped(ptr as int, len as int)
                    && bufs@.len() == page_count(ptr as int, len as int)
                    && (forall|k: int| 0 <= k < bufs@.len()
                            ==> (#[trigger] bufs@[k])@ == self.bytes_at(
                                seg_lo(ptr as int, k),
                                seg_hi(ptr as int, len as int, k) - seg_lo(ptr as int, k)))
                    && views_of(bufs@).flatten() == self.bytes_at(ptr as int, len as int),
                None => !self.range_mapped(ptr as int, len as int),
            },
    {
        let ghost iptr = ptr as int;
        let ghost ilen = len as int;
        if len == 0 {
            let bufs: Vec<Vec<u8>> = Vec::new();
            proof {
                assert(views_of(bufs@) =~= Seq::<Seq<u8>>::empty());
                assert(views_of(bufs@).flatten() =~= self.bytes_at(iptr, 0));
            }
            return Some(bufs);
        }
        if len - 1 > usize::MAX - ptr {
            // The last byte of the range lies beyond any mappable address.
            proof {
                let last = (iptr + ilen - 1) / PAGE_SIZE as int;
                lemma_div_is_ordered(MAX_VPN * PAGE_SIZE, iptr + ilen - 1, PAGE_SIZE as int);
                assert(MAX_VPN * PAGE_SIZE / PAGE_SIZE as int == MAX_VPN) by (nonlinear_arith);
                if self.is_mapped(last) {
                    self.lemma_mapped_bound(last);
                }
            }
            return None;
        }
        let last_addr: usize = ptr + (len - 1);
        let mut bufs: Vec<Vec<u8>> = Vec::new();
        let mut cur: usize = ptr;
        proof {
            assert(views_of(bufs@) =~= Seq::<Seq<u8>>::empty());
            assert(views_of(bufs@).flatten() =~= self.bytes_at(iptr, 0));
        }
        while cur <= last_addr
            invariant
                self.wf(),
                iptr == ptr as int,
                ilen == len as int,
                ilen > 0,
                last_addr == iptr + ilen - 1,
                iptr <= cur <= iptr + ilen,
                cur <= last_addr ==> cur == seg_lo(iptr, bufs@.len() as int),
                bufs@.len() <= page_count(iptr, ilen),
                cur > last_addr ==> bufs@.len() == page_count(iptr, ilen),
                forall|vpn: int|
                    iptr / PAGE_SIZE as int <= vpn < iptr / PAGE_SIZE as int + bufs@.len()
                    ==> #[trigger] self.is_mapped(vpn),
                forall|k: int| 0 <= k < bufs@.len()
                    ==> (#[trigger] bufs@[k])@ == self.bytes_at(
                        seg_lo(iptr, k), seg_hi(iptr, ilen, k) - seg_lo(iptr, k)),
                views_of(bufs@).flatten() == self.bytes_at(iptr, cur - iptr),
            decreases iptr + ilen - cur,
        {
            let ghost k = bufs@.len() as int;
            let ghost first = iptr / PAGE_SIZE as int;
            let vpn = cur / PAGE_SIZE;
            proof {
                if k > 0 {
                    // cur == (first + k) * PAGE_SIZE, so its page is first + k.
                    lemma_fundamental_div_mod_converse(
                        cur as int, PAGE_SIZE as int, first + k, 0);
                }
                lemma_div_is_ordered(iptr, cur as int, PAGE_SIZE as int);
                lemma_div_is_ordered(cur as int, iptr + ilen - 1, PAGE_SIZE as int);
                assert(vpn as int == first + k);
            }
            let i = match self.find_page(vpn) {
                Some(i) => i,
                None => {
                    return None;
                },
            };
            let page_base: usize = vpn * PAGE_SIZE;
            let page_end: usize = page_base + PAGE_SIZE;
            proof {
                assert(self.pages@[i as int].vpn < MAX_VPN);
                assert(vpn * PAGE_SIZE + PAGE_SIZE <= MAX_VPN * PAGE_SIZE) by (nonlinear_arith)
                    requires vpn < MAX_VPN;
                assert(MAX_VPN * PAGE_SIZE < usize::MAX);
                lemma_fundamental_div_mod(cur as int, PAGE_SIZE as int);
                assert(page_base <= cur < page_end);
            }
            let stop: usize = if last_addr < page_end - 1 { last_addr + 1 } else { page_end };
            let seg_start: usize = cur;
            let mut buf: Vec<u8> = Vec::new();
            while cur < stop
                invariant
                    self.wf(),
                    i < self.pages@.len(),
                    self.pages@[i as int].vpn == vpn,
                    self.index_of(vpn as int) == i,
                    page_base == vpn * PAGE_SIZE,
                    page_end == page_base + PAGE_SIZE,
                    page_base <= seg_start <= cur <= stop <= page_end,
                    buf@.len() == cur - seg_start,
                    forall|t: int| 0 <= t < buf@.len()
                        ==> #[trigger] buf@[t] == self.pages@[i as int].data@[seg_start - page_base + t],
                decreases stop - cur,
            {
                let b = self.pages[i].data[cur - page_base];
                buf.push(b);
                cur = cur + 1;
            }
            proof {
                let slo = seg_start as int;
                let shi = cur as int;
                assert forall|t: int| 0 <= t < shi - slo
                    implies self.byte_at(slo + t) == buf@[t] by {
                    lemma_fundamental_div_mod_converse(
                        slo + t, PAGE_SIZE as int, vpn as int, slo + t - vpn * PAGE_SIZE);
                    self.lemma_index_of(vpn as int, i as int);
                }
                assert(buf@ =~= self.bytes_at(slo, shi - slo));
                assert(shi == seg_hi(iptr, ilen, k)) by {
                    assert(stop == if iptr + ilen < (first + k + 1) * PAGE_SIZE {
                        iptr + ilen
                    } else {
                        (first + k + 1) * PAGE_SIZE
                    });
                }
                assert(slo == seg_lo(iptr, k));
                let old_views = views_of(bufs@);
                let new_views = views_of(bufs@.push(buf));
                assert(new_views =~= old_views.push(buf@));
                old_views.lemma_flatten_push(buf@);
                assert(new_views.flatten() =~= self.bytes_at(iptr, shi - iptr)) by {
                    assert(old_views.flatten() + buf@ =~= self.bytes_at(iptr, shi - iptr));
                }
            }
            bufs.push(buf);
            proof {
                if cur <= last_addr {
                    // The next segment begins at the next page boundary.
                    assert(cur as int == (first + k + 1) * PAGE_SIZE);
                    assert(cur as int == seg_lo(iptr, k + 1));
                } else {
                    // The last byte of the range lies in this page.
                    assert(bufs@.len() == page_count(iptr, ilen)) by {
                        lemma_fundamental_div_mod_converse(
                            iptr + ilen - 1, PAGE_SIZE as int, first + k,
                            iptr + ilen - 1 - (first + k) * PAGE_SIZE);
                    }
                }
            }
        }
        proof {
            assert(self.bytes_at(iptr, cur - iptr) =~= self.bytes_at(iptr, ilen));
            assert(self.range_mapped(iptr, ilen));
        }
        Some(bufs)
    }

    /// Reads a null-terminated byte string starting at `ptr`, one
    /// translated byte at a time, used for path and argument strings.
    /// Fails if the scan runs into unmapped memory, or if no zero byte
    /// appears within the first `MAX_STR_LEN` bytes (an explicit bound, so
    /// that an unterminated user string cannot send the kernel on an
    /// unbounded walk).
    pub fn translated_str(&self, ptr: usize) -> (r: Option<Vec<u8>>)
        requires
            self.wf(),
        ensures
            match r {
                Some(s) => s@.len() <= MAX_STR_LEN
                    && self.terminated_at(ptr as int, s@.len() as int)
                    && (forall|i: int| 0 <= i < s@.len()
                            ==> #[trigger] s@[i] == self.byte_at(ptr as int + i)),
                None => forall|n: int|
                    0 <= n <= MAX_STR_LEN ==> !(#[trigger] self.terminated_at(ptr as int, n)),
            },
    {
        let mut s: Vec<u8> = Vec::new();
        let mut n: usize = 0;
        while n <= MAX_STR_LEN
            invariant
                self.wf(),
                n == s@.len(),
                n <= MAX_STR_LEN + 1,
                self.str_prefix_ok(ptr as int, n as int),
                forall|i: int| 0 <= i < n ==> #[trigger] s@[i] == self.byte_at(ptr as int + i),
            decreases MAX_STR_LEN + 1 - n,
        {
            let ghost iva = ptr as int + n as int;
            if n > usize::MAX - ptr {
                // The next byte lies beyond any mappable address.
                proof {
                    lemma_div_is_ordered(MAX_VPN * PAGE_SIZE, iva, PAGE_SIZE as int);
                    assert(MAX_VPN * PAGE_SIZE / PAGE_SIZE as int == MAX_VPN) by (nonlinear_arith);
                    if self.is_mapped(iva / PAGE_SIZE as int) {
                        self.lemma_mapped_bound(iva / PAGE_SIZE as int);
                    }
                    assert forall|m: int| 0 <= m <= MAX_STR_LEN
                        implies !(#[trigger] self.terminated_at(ptr as int, m)) by {
                        if m < n {
                            assert(self.byte_at(ptr as int + m) != 0);
                        } else if m > n && self.terminated_at(ptr as int, m) {
                            assert(self.byte_at(ptr as int + n as int) != 0
                                && self.is_mapped((ptr as int + n as int) / PAGE_SIZE as int));
                        }
                    }
                }
                return None;
            }
            let va = ptr + n;
            proof {
                assert(va as int == iva);
            }
            match self.read_byte(va) {
                Some(b) => {
                    proof {
                        assert(b == self.byte_at(iva));
                        assert(self.is_mapped(iva / PAGE_SIZE as int));
                    }
                    if b == 0 {
                        proof {
                            assert(self.terminated_at(ptr as int, n as int));
                        }
                        return Some(s);
                    }
                    s.push(b);
                },
                None => {
                    proof {
                        assert forall|m: int| 0 <= m <= MAX_STR_LEN
                            implies !(#[trigger] self.terminated_at(ptr as int, m)) by {
                            if m < n {
                                assert(self.byte_at(ptr as int + m) != 0);
                            } else if m > n && self.terminated_at(ptr as int, m) {
                                assert(self.str_prefix_ok(ptr as int, m));
                                assert(0 <= (n as int) && (n as int) < m);
                                assert(self.byte_at(ptr as int + n as int) != 0
                                    && self.is_mapped(
                                        (ptr as int + n as int) / PAGE_SIZE as int));
                            }
                        }
                    }
                    return None;
                },
            }
            n = n + 1;
        }
        proof {
            assert forall|m: int| 0 <= m <= MAX_STR_LEN
                implies !(#[trigger] self.terminated_at(ptr as int, m)) by {
                assert(self.byte_at(ptr as int + m) != 0);
            }
        }
        None
    }

    /// A range no longer than one page touches at most two pages, so it
    /// is fully mapped as soon as its first and last byte are.
    pub proof fn lemma_small_range_mapped(self, ptr: int, len: int)
        requires
            self.wf(),
            0 < len <= PAGE_SIZE,
            0 <= ptr,
            self.is_mapped(ptr / PAGE_SIZE as int),
            self.is_mapped((ptr + len - 1) / PAGE_SIZE as int),
        ensures
            self.range_mapped(ptr, len),
    {
        let ps = PAGE_SIZE as int;
        let first = ptr / ps;
        let last = (ptr + len - 1) / ps;
        lemma_div_is_ordered(ptr, ptr + len - 1, ps);
        let rr = ptr % ps;
        lemma_fundamental_div_mod(ptr, ps);
        if rr == 0 {
            lemma_fundamental_div_mod_converse(ptr + ps - 1, ps, first, ps - 1);
        } else {
            lemma_fundamental_div_mod_converse(ptr + ps - 1, ps, first + 1, rr - 1);
        }
        lemma_div_is_ordered(ptr + len - 1, ptr + ps - 1, ps);
        assert(last <= first + 1);
    }

    /// Stores one byte at virtual address `va`; fails, changing nothing,
    /// if the page containing it is unmapped. No permission bits are
    /// consulted: callers that act on behalf of user code check
    /// `addr_flag` first.
    pub fn set_byte(&mut self, va: usize, b: u8) -> (r: bool)
        requires
            old(self).wf(),
        ensures
            final(self).wf(),
            r == old(self).is_mapped(va as int / PAGE_SIZE as int),
            !r ==> *final(self) == *old(self),
            r ==> same_mapping(*old(self), *final(self))
                && final(self).byte_at(va as int) == b
                && (forall|x: int|
                        old(self).is_mapped(x / PAGE_SIZE as int) && x != va
                        ==> #[trigger] final(self).byte_at(x) == old(self).byte_at(x)),
    {
        let vpn = va / PAGE_SIZE;
        let i = match self.find_page(vpn) {
            Some(i) => i,
            None => {
                return false;
            },
        };
        let off = va % PAGE_SIZE;
        let mut d = clone_bytes(&self.pages[i].data);
        d[off] = b;
        let np = MappedPage {
            vpn: self.pages[i].vpn,
            perm: self.pages[i].perm,
            frame: self.pages[i].frame,
            data: d,
        };
        proof {
            assert(Self::page_wf(np));
        }
        self.pages[i] = np;
        proof {
            let pre = *old(self);
            let post = *self;
            let ivpn = vpn as int;
            let ioff = off as int;
            assert forall|j: int| 0 <= j < post.pages@.len()
                implies Self::page_wf(#[trigger] post.pages@[j]) by {
                assert(Self::page_wf(pre.pages@[j]));
            }
            assert(post.wf());
            assert forall|v2: int| #[trigger] post.is_mapped(v2) <==> pre.is_mapped(v2) by {
                if pre.is_mapped(v2) {
                    let c = pre.index_of(v2);
                    assert(post.pages@[c].vpn == v2);
                }
                if post.is_mapped(v2) {
                    let c = post.index_of(v2);
                    assert(pre.pages@[c].vpn == v2);
                }
            }
            assert forall|v2: int| pre.is_mapped(v2)
                implies (#[trigger] post.page_at(v2)).perm == pre.page_at(v2).perm
                    && post.page_at(v2).frame == pre.page_at(v2).frame
                    && post.index_of(v2) == pre.index_of(v2)
                    && (v2 != ivpn ==> post.page_at(v2).data@ == pre.page_at(v2).data@) by {
                let c = pre.index_of(v2);
                assert(pre.pages@[c].vpn == v2);
                post.lemma_index_of(v2, c);
                pre.lemma_index_of(v2, c);
                if v2 != ivpn {
                    assert(c != i as int);
                }
            }
            assert(same_mapping(pre, post));
            post.lemma_index_of(ivpn, i as int);
            assert(post.byte_at(va as int) == b);
            assert forall|x: int| pre.is_mapped(x / PAGE_SIZE as int) && x != va
                implies #[trigger] post.byte_at(x) == pre.byte_at(x) by {
                let xv = x / PAGE_SIZE as int;
                let xo = x % PAGE_SIZE as int;
                if xv == ivpn {
                    lemma_fundamental_div_mod(x, PAGE_SIZE as int);
                    lemma_fundamental_div_mod(va as int, PAGE_SIZE as int);
                    assert(xo != ioff);
                    assert(post.page_at(xv).data@ == pre.page_at(xv).data@.update(ioff, b));
                } else {
                    assert(post.page_at(xv).data@ == pre.page_at(xv).data@);
                }
            }
        }
        true
    }

    /// Copies `src` into user memory starting at `ptr`, segment by
    /// segment across page boundaries; fails, changing nothing, if any
    /// page of the destination range is unmapped. No permission bits are
    /// consulted: callers that act on behalf of user code check
    /// `addr_flag` first.
    pub fn write_buffer(&mut self, ptr: usize, src: &Vec<u8>) -> (r: bool)
        requires
            old(self).wf(),
        ensures
            final(self).wf(),
            r == old(self).range_mapped(ptr as int, src@.len() as int),
            !r ==> *final(self) == *old(self),
            r ==> same_mapping(*old(self), *final(self))
                && (forall|x: int|
                        ptr <= x < ptr + src@.len()
                        ==> #[trigger] final(self).byte_at(x) == src@[x - ptr])
                && (forall|x: int|
                        old(self).is_mapped(x / PAGE_SIZE as int)
                            && !(ptr <= x < ptr + src@.len())
                        ==> #[trigger] final(self).byte_at(x) == old(self).byte_at(x)),
    {
        let ghost iptr = ptr as int;
        let ghost ilen = src@.len() as int;
        match self.translated_byte_buffer(ptr, src.len()) {
            Some(_) => {},
            None => {
                return false;
            },
        }
        if src.len() == 0 {
            return true;
        }
        proof {
            // Every address of a mapped range lies below the address bound.
            let last = (iptr + ilen - 1) / PAGE_SIZE as int;
            assert(old(self).is_mapped(last));
            old(self).lemma_mapped_bound(last);
            if iptr + ilen - 1 >= MAX_VPN * PAGE_SIZE {
                lemma_div_is_ordered(MAX_VPN * PAGE_SIZE, iptr + ilen - 1, PAGE_SIZE as int);
                assert(MAX_VPN * PAGE_SIZE / PAGE_SIZE as int == MAX_VPN) by (nonlinear_arith);
                assert(false);
            }
        }
        let mut j: usize = 0;
        while j < src.len()
            invariant
                self.wf(),
                iptr == ptr as int,
                ilen == src@.len() as int,
                j <= src@.len(),
                iptr + ilen - 1 < MAX_VPN * PAGE_SIZE,
                old(self).wf(),
                old(self).range_mapped(iptr, ilen),
                same_mapping(*old(self), *self),
                forall|x: int| iptr <= x < iptr + j ==> #[trigger] self.byte_at(x) == src@[x - iptr],
                forall|x: int|
                    old(self).is_mapped(x / PAGE_SIZE as int) && !(iptr <= x < iptr + j)
                    ==> #[trigger] self.byte_at(x) == old(self).byte_at(x),
            decreases src@.len() - j,
        {
            let ghost mid = *self;
            proof {
                // The page of byte j is inside the mapped range.
                lemma_div_is_ordered(iptr, iptr + j as int, PAGE_SIZE as int);
                lemma_div_is_ordered(iptr + j as int, iptr + ilen - 1, PAGE_SIZE as int);
                assert(old(self).is_mapped((iptr + j as int) / PAGE_SIZE as int));
                assert(self.is_mapped((iptr + j as int) / PAGE_SIZE as int));
            }
            let ok = self.set_byte(ptr + j, src[j]);
            proof {
                assert(ok);
                lemma_same_mapping_trans(*old(self), mid, *self);
                assert forall|x: int| iptr <= x < iptr + j + 1
                    implies #[trigger] self.byte_at(x) == src@[x - iptr] by {
                    if x < iptr + j {
                        assert(mid.is_mapped(x / PAGE_SIZE as int)) by {
                            lemma_div_is_ordered(iptr, x, PAGE_SIZE as int);
                            lemma_div_is_ordered(x, iptr + ilen - 1, PAGE_SIZE as int);
                            assert(old(self).is_mapped(x / PAGE_SIZE as int));
                        }
                        assert(self.byte_at(x) == mid.byte_at(x));
                    }
                }
                assert forall|x: int|
                    old(self).is_mapped(x / PAGE_SIZE as int) && !(iptr <= x < iptr + j + 1)
                    implies #[trigger] self.byte_at(x) == old(self).byte_at(x) by {
                    assert(mid.is_mapped(x / PAGE_SIZE as int));
                    assert(self.byte_at(x) == mid.byte_at(x));
                }
            }
            j = j + 1;
        }
        true
    }

    /// The ways a mapping request can be rejected: a start address that is
    /// not page-aligned, permission bits that are empty or stray outside
    /// {read, write, execute}, a range beyond the address bound, no free
    /// frames left, or overlap with an existing mapping.
    pub open spec fn mmap_invalid(self, start: int, len: int, port: usize) -> bool {
        ||| start % PAGE_SIZE as int != 0
        ||| port & 7 == 0
        ||| port > 7
        ||| start / PAGE_SIZE as int + pages_of_len(len) > MAX_VPN
        ||| self.next_frame + pages_of_len(len) > MAX_VPN
        ||| exists|vpn: int|
                start / PAGE_SIZE as int <= vpn < start / PAGE_SIZE as int + pages_of_len(len)
                && #[trigger] self.is_mapped(vpn)
    }

    /// The ways an unmapping request can be rejected: a start address that
    /// is not page-aligned, or a page of the range that is not currently
    /// mapped (in which case nothing at all is unmapped).
    pub open spec fn munmap_invalid(self, start: int, len: int) -> bool {
        ||| start % PAGE_SIZE as int != 0
        ||| exists|vpn: int|
                start / PAGE_SIZE as int <= vpn < start / PAGE_SIZE as int + pages_of_len(len)
                && !(#[trigger] self.is_mapped(vpn))
    }

    /// What a successful mapping of `[start, start + len)` with request
    /// bits `port` does: every page of the range is freshly mapped with
    /// the user bit plus the requested permissions and zeroed contents,
    /// every byte of the range carries those bits, and everything outside
    /// the range is untouched.
    pub open spec fn mmap_success(pre: AddrSpace, post: AddrSpace, start: int, len: int, port: usize) -> bool {
        let svpn = start / PAGE_SIZE as int;
        let np = pages_of_len(len);
        &&& (forall|vpn: int| svpn <= vpn < svpn + np
                ==> #[trigger] post.is_mapped(vpn)
                    && post.perm_at(vpn) == ((port << 1) | PERM_U)
                    && post.page_at(vpn).data@ == zero_page_bytes()
                    && post.page_at(vpn).frame == pre.next_frame + (vpn - svpn))
        &&& same_outside(pre, post, svpn, svpn + np)
        &&& post.next_frame == pre.next_frame + np
        &&& (forall|x: int| start <= x < start + len
                ==> #[trigger] post.flag_ok(x, (port << 1) | PERM_U))
    }

    /// Validates that `start` is page-aligned, that the permission bits in
    /// `port` are a nonempty subset of {read, write, execute}, and that
    /// the range overlaps no existing mapping; on success allocates fresh
    /// zeroed frames and installs mappings with the user bit plus the
    /// requested permissions. Returns -1, changing nothing, on any
    /// validation failure.
    #[verifier::rlimit(60)]
    pub fn insert_framed_area(&mut self, start: usize, len: usize, port: usize) -> (r: isize)
        requires
            old(self).wf(),
        ensures
            final(self).wf(),
            r == 0 || r == -1,
            (r == -1) == old(self).mmap_invalid(start as int, len as int, port),
            r == -1 ==> *final(self) == *old(self),
            r == 0 ==> Self::mmap_success(*old(self), *final(self), start as int, len as int, port),
    {
        let ghost pre = *old(self);
        if start % PAGE_SIZE != 0 {
            return -1;
        }
        if port & 7 == 0 || port > 7 {
            return -1;
        }
        let svpn: usize = start / PAGE_SIZE;
        let np: usize = len / PAGE_SIZE + (if len % PAGE_SIZE != 0 { 1 } else { 0 });
        proof {
            lemma_pages_of_len(len as int);
            assert(np as int == pages_of_len(len as int));
        }
        if np > MAX_VPN || svpn > MAX_VPN - np || self.next_frame > MAX_VPN - np {
            return -1;
        }
        // First pass: the range must not overlap an existing mapping.
        let mut k: usize = 0;
        while k < np
            invariant
                self.wf(),
                *self == pre,
                svpn as int == start as int / PAGE_SIZE as int,
                np as int == pages_of_len(len as int),
                svpn + np <= MAX_VPN,
                k <= np,
                forall|vpn: int| svpn <= vpn < svpn + k ==> !(#[trigger] self.is_mapped(vpn)),
            decreases np - k,
        {
            if self.find_page(svpn + k).is_some() {
                proof {
                    assert(pre.is_mapped(svpn as int + k as int));
                }
                return -1;
            }
            k = k + 1;
        }
        // Second pass: allocate a fresh zeroed frame for each page.
        let perm: usize = (port << 1) | PERM_U;
        let ghost zero_page = zero_page_bytes();
        let mut k: usize = 0;
        while k < np
            invariant
                svpn as int == start as int / PAGE_SIZE as int,
                svpn + np <= MAX_VPN,
                pre.wf(),
                pre.next_frame + np <= MAX_VPN,
                k <= np,
                forall|vpn: int| svpn <= vpn < svpn + np ==> !(#[trigger] pre.is_mapped(vpn)),
                self.pages@.len() == pre.pages@.len() + k,
                forall|j: int| 0 <= j < pre.pages@.len()
                    ==> #[trigger] self.pages@[j] == pre.pages@[j],
                forall|j: int| pre.pages@.len() <= j < self.pages@.len()
                    ==> (#[trigger] self.pages@[j]).vpn == svpn + (j - pre.pages@.len())
                        && self.pages@[j].perm == perm
                        && self.pages@[j].frame == pre.next_frame + (j - pre.pages@.len())
                        && self.pages@[j].data@ == zero_page,
                self.next_frame == pre.next_frame + k,
                perm == (port << 1) | PERM_U,
                zero_page == Seq::new(PAGE_SIZE as nat, |t: int| 0u8),
            decreases np - k,
        {
            let data: Vec<u8> = zeroed_page();
            let page = MappedPage { vpn: svpn + k, perm, frame: self.next_frame, data };
            self.pages.push(page);
            self.next_frame = self.next_frame + 1;
            k = k + 1;
        }
        proof {
            let post = *self;
            let base = pre.pages@.len() as int;
            let isvpn = svpn as int;
            let inp = np as int;
            // Well-formed: old entries unchanged, new entries in-bounds and
            // pairwise distinct, and distinct from every old entry.
            assert forall|j: int| 0 <= j < post.pages@.len()
                implies Self::page_wf(#[trigger] post.pages@[j]) by {
                if j < base {
                    assert(Self::page_wf(pre.pages@[j]));
                }
            }
            assert forall|a: int, b2: int|
                0 <= a < post.pages@.len() && 0 <= b2 < post.pages@.len() && a != b2
                implies (#[trigger] post.pages@[a]).vpn != (#[trigger] post.pages@[b2]).vpn by {
                if a < base && b2 < base {
                    assert(pre.pages@[a].vpn != pre.pages@[b2].vpn);
                } else if a < base && b2 >= base {
                    if pre.pages@[a].vpn == post.pages@[b2].vpn {
                        assert(pre.is_mapped(post.pages@[b2].vpn as int));
                        assert(false);
                    }
                } else if a >= base && b2 < base {
                    if pre.pages@[b2].vpn == post.pages@[a].vpn {
                        assert(pre.is_mapped(post.pages@[a].vpn as int));
                        assert(false);
                    }
                }
            }
            assert(post.wf());
            // The whole range is mapped with the requested bits, zeroed.
            assert forall|vpn: int| isvpn <= vpn < isvpn + inp
                implies #[trigger] post.is_mapped(vpn)
                    && post.perm_at(vpn) == perm
                    && post.page_at(vpn).data@ == zero_page
                    && post.page_at(vpn).frame == pre.next_frame + (vpn - isvpn) by {
                let j = base + (vpn - isvpn);
                assert(post.pages@[j].vpn == vpn);
                post.lemma_index_of(vpn, j);
            }
            // Everything outside the range is untouched.
            assert forall|vpn: int|
                #![trigger post.is_mapped(vpn)]
                !(isvpn <= vpn < isvpn + inp)
                implies (post.is_mapped(vpn) <==> pre.is_mapped(vpn))
                    && (pre.is_mapped(vpn) ==> post.page_at(vpn).perm == pre.page_at(vpn).perm
                        && post.page_at(vpn).frame == pre.page_at(vpn).frame
                        && post.page_at(vpn).data@ == pre.page_at(vpn).data@) by {
                if pre.is_mapped(vpn) {
                    let c = pre.index_of(vpn);
                    assert(pre.pages@[c].vpn == vpn);
                    assert(post.pages@[c].vpn == vpn);
                    post.lemma_index_of(vpn, c);
                    pre.lemma_index_of(vpn, c);
                }
                if post.is_mapped(vpn) {
                    let c = post.index_of(vpn);
                    assert(0 <= c < base);
                    assert(pre.pages@[c].vpn == vpn);
                }
            }
            // Every byte address of the requested range carries the bits.
            assert forall|x: int| start <= x < start + len
                implies #[trigger] post.flag_ok(x, perm) by {
                lemma_addr_page_in_range(start as int, len as int, x);
                assert(post.is_mapped(x / PAGE_SIZE as int));
                assert(post.perm_at(x / PAGE_SIZE as int) == perm);
                assert(perm & perm == perm) by (bit_vector);
            }
            assert(!pre.mmap_invalid(start as int, len as int, port));
            assert(same_outside(pre, post, isvpn, isvpn + inp));
            assert(Self::mmap_success(pre, post, start as int, len as int, port));
        }
        0
    }

    /// What a successful unmapping of `[start, start + len)` does: no page
    /// of the range stays mapped, so no byte of the range carries any
    /// permission bits, and everything outside the range is untouched.
    pub open spec fn munmap_success(pre: AddrSpace, post: AddrSpace, start: int, len: int) -> bool {
        let svpn = start / PAGE_SIZE as int;
        let np = pages_of_len(len);
        &&& (forall|vpn: int| svpn <= vpn < svpn + np ==> !(#[trigger] post.is_mapped(vpn)))
        &&& same_outside(pre, post, svpn, svpn + np)
        &&& post.next_frame == pre.next_frame
        &&& (forall|x: int, fl: usize| start <= x < start + len
                ==> !(#[trigger] post.flag_ok(x, fl)))
    }

    /// Unmaps the page range `[start, start + len)`: fails, changing
    /// nothing, if `start` is not page-aligned or if any page of the range
    /// is not currently mapped (a partially mapped range leaves no partial
    /// side effects); on success removes every mapping of the range.
    #[verifier::rlimit(60)]
    pub fn delete_framed_area(&mut self, start: usize, len: usize) -> (r: isize)
        requires
            old(self).wf(),
        ensures
            final(self).wf(),
            r == 0 || r == -1,
            (r == -1) == old(self).munmap_invalid(start as int, len as int),
            r == -1 ==> *final(self) == *old(self),
            r == 0 ==> Self::munmap_success(*old(self), *final(self), start as int, len as int),
    {
        let ghost pre = *old(self);
        if start % PAGE_SIZE != 0 {
            return -1;
        }
        let svpn: usize = start / PAGE_SIZE;
        let np: usize = len / PAGE_SIZE + (if len % PAGE_SIZE != 0 { 1 } else { 0 });
        proof {
            lemma_pages_of_len(len as int);
            assert(np as int == pages_of_len(len as int));
        }
        // First pass: the whole range must be mapped, else nothing happens.
        let mut k: usize = 0;
        while k < np
            invariant
                self.wf(),
                *self == pre,
                svpn as int == start as int / PAGE_SIZE as int,
                np as int == pages_of_len(len as int),
                k <= np,
                forall|vpn: int| svpn <= vpn < svpn + k ==> #[trigger] self.is_mapped(vpn),
            decreases np - k,
        {
            proof {
                if k > 0 {
                    pre.lemma_mapped_bound(svpn as int + k as int - 1);
                }
            }
            if self.find_page(svpn + k).is_none() {
                proof {
                    assert(!pre.is_mapped(svpn as int + k as int));
                }
                return -1;
            }
            k = k + 1;
        }
        proof {
            if np > 0 {
                pre.lemma_mapped_bound(svpn as int + np as int - 1);
            }
        }
        // Second pass: remove each page of the range.
        let mut k: usize = 0;
        while k < np
            invariant
                self.wf(),
                pre.wf(),
                svpn as int == start as int / PAGE_SIZE as int,
                np as int == pages_of_len(len as int),
                k <= np,
                np > 0 ==> svpn as int + np as int - 1 < MAX_VPN,
                self.next_frame == pre.next_frame,
                forall|vpn: int| svpn + k <= vpn < svpn + np ==> #[trigger] self.is_mapped(vpn),
                forall|vpn: int| svpn <= vpn < svpn + k ==> !(#[trigger] self.is_mapped(vpn)),
                forall|vpn: int|
                    #![trigger self.is_mapped(vpn)]
                    #![trigger self.page_at(vpn)]
                    !(svpn <= vpn < svpn + np)
                    ==> (self.is_mapped(vpn) <==> pre.is_mapped(vpn))
                        && (pre.is_mapped(vpn) ==> self.page_at(vpn) == pre.page_at(vpn)),
            decreases np - k,
        {
            let ghost mid = *self;
            let i = match self.find_page(svpn + k) {
                Some(i) => i,
                None => {
                    proof {
                        assert(false);
                    }
                    return -1;
                },
            };
            self.pages.remove(i);
            proof {
                lemma_remove_page(mid, *self, i as int);
                assert forall|vpn: int|
                    #![trigger self.is_mapped(vpn)]
                    #![trigger self.page_at(vpn)]
                    !(svpn <= vpn < svpn + np)
                    implies (self.is_mapped(vpn) <==> pre.is_mapped(vpn))
                        && (pre.is_mapped(vpn) ==> self.page_at(vpn) == pre.page_at(vpn)) by {
                    assert(vpn != svpn as int + k as int);
                    assert(self.is_mapped(vpn) <==> mid.is_mapped(vpn));
                    if pre.is_mapped(vpn) {
                        assert(mid.page_at(vpn) == pre.page_at(vpn));
                        assert(self.page_at(vpn) == mid.page_at(vpn));
                    }
                }
            }
            k = k + 1;
        }
        proof {
            let post = *self;
            assert forall|x: int, fl: usize| start <= x < start + len
                implies !(#[trigger] post.flag_ok(x, fl)) by {
                lemma_addr_page_in_range(start as int, len as int, x);
            }
            assert(!pre.munmap_invalid(start as int, len as int));
            let svpn2 = start as int / PAGE_SIZE as int;
            let np2 = pages_of_len(len as int);
            assert(forall|vpn: int|
                svpn2 <= vpn < svpn2 + np2 ==> !(#[trigger] post.is_mapped(vpn)));
            assert forall|vpn: int|
                #![trigger post.is_mapped(vpn)]
                !(svpn2 <= vpn < svpn2 + np2)
                implies (post.is_mapped(vpn) <==> pre.is_mapped(vpn))
                    && (pre.is_mapped(vpn) ==> post.page_at(vpn).perm == pre.page_at(vpn).perm
                        && post.page_at(vpn).frame == pre.page_at(vpn).frame
                        && post.page_at(vpn).data@ == pre.page_at(vpn).data@) by {
                if pre.is_mapped(vpn) {
                    assert(post.page_at(vpn) == pre.page_at(vpn));
                }
            }
            assert(same_outside(pre, post, svpn2, svpn2 + np2));
            assert(post.next_frame == pre.next_frame);
            assert(Self::munmap_success(pre, post, start as int, len as int));
        }
        0
    }

    /// A deep copy of this address space: every forked address space gets
    /// independent physical backing (no copy-on-write), with the same page
    /// numbers, permission bits, frame numbers and byte contents.
    pub fn clone_space(&self) -> (r: AddrSpace)
        requires
            self.wf(),
        ensures
            r.wf(),
            same_mapping(*self, r),
            forall|vpn: int| self.is_mapped(vpn)
                ==> (#[trigger] r.page_at(vpn)).data@ == self.page_at(vpn).data@,
    {
        let mut pages: Vec<MappedPage> = Vec::new();
        let mut i: usize = 0;
        while i < self.pages.len()
            invariant
                self.wf(),
                i <= self.pages@.len(),
                pages@.len() == i,
                forall|j: int| 0 <= j < i
                    ==> (#[trigger] pages@[j]).vpn == self.pages@[j].vpn
                        && pages@[j].perm == self.pages@[j].perm
                        && pages@[j].frame == self.pages@[j].frame
                        && pages@[j].data@ == self.pages@[j].data@,
            decreases self.pages@.len() - i,
        {
            let p = MappedPage {
                vpn: self.pages[i].vpn,
                perm: self.pages[i].perm,
                frame: self.pages[i].frame,
                data: clone_bytes(&self.pages[i].data),
            };
            pages.push(p);
            i = i + 1;
        }
        let r = AddrSpace { pages, next_frame: self.next_frame };
        proof {
            assert forall|j: int| 0 <= j < r.pages@.len()
                implies Self::page_wf(#[trigger] r.pages@[j]) by {
                assert(Self::page_wf(self.pages@[j]));
            }
            assert(r.wf());
            assert forall|vpn: int| #[trigger] r.is_mapped(vpn) <==> self.is_mapped(vpn) by {
                if self.is_mapped(vpn) {
                    let c = self.index_of(vpn);
                    assert(self.pages@[c].vpn == vpn);
                    assert(r.pages@[c].vpn == vpn);
                }
                if r.is_mapped(vpn) {
                    let c = r.index_of(vpn);
                    assert(self.pages@[c].vpn == vpn);
                }
            }
            assert forall|vpn: int| self.is_mapped(vpn)
                implies (#[trigger] r.page_at(vpn)).perm == self.page_at(vpn).perm
                    && r.page_at(vpn).frame == self.page_at(vpn).frame
                    && r.page_at(vpn).data@ == self.page_at(vpn).data@ by {
                let c = self.index_of(vpn);
                assert(self.pages@[c].vpn == vpn);
                assert(r.pages@[c].vpn == vpn);
                self.lemma_index_of(vpn, c);
                r.lemma_index_of(vpn, c);
            }
        }
        r
    }
}

/// One page of zero bytes.
pub open spec fn zero_page_bytes() -> Seq<u8> {
    Seq::new(PAGE_SIZE as nat, |t: int| 0u8)
}

/// How many whole pages cover `len` bytes, rounding up.
pub open spec fn pages_of_len(len: int) -> int {
    (len + PAGE_SIZE - 1) / PAGE_SIZE as int
}

/// The rounded-up page count computed with division and remainder matches
/// `pages_of_len`.
proof fn lemma_pages_of_len(len: int)
    requires
        0 <= len,
    ensures
        pages_of_len(len) == len / PAGE_SIZE as int
            + if len % PAGE_SIZE as int != 0 { 1int } else { 0int },
        len <= pages_of_len(len) * PAGE_SIZE,
{
    let ps = PAGE_SIZE as int;
    let q = len / ps;
    let rr = len % ps;
    lemma_fundamental_div_mod(len, ps);
    if rr == 0 {
        lemma_fundamental_div_mod_converse(len + ps - 1, ps, q, ps - 1);
    } else {
        lemma_fundamental_div_mod_converse(len + ps - 1, ps, q + 1, rr - 1);
    }
}

/// Every byte of a page-aligned range `[start, start + len)` lies in one
/// of its `pages_of_len(len)` pages.
pub proof fn lemma_addr_page_in_range(start: int, len: int, x: int)
    requires
        0 <= start,
        start % PAGE_SIZE as int == 0,
        start <= x < start + len,
    ensures
        start / PAGE_SIZE as int <= x / PAGE_SIZE as int,
        (x / PAGE_SIZE as int) < (start / PAGE_SIZE as int) + pages_of_len(len),
{
    let ps = PAGE_SIZE as int;
    let svpn = start / ps;
    lemma_fundamental_div_mod(start, ps);
    lemma_div_is_ordered(start, x, ps);
    let q = (len - 1) / ps;
    let rr = (len - 1) % ps;
    lemma_fundamental_div_mod(len - 1, ps);
    lemma_fundamental_div_mod_converse(start + len - 1, ps, svpn + q, rr);
    lemma_div_is_ordered(x, start + len - 1, ps);
    lemma_fundamental_div_mod_converse(len + ps - 1, ps, q + 1, rr);
}

/// Removing one page-table entry leaves every other mapping intact.
proof fn lemma_remove_page(pre: AddrSpace, post: AddrSpace, i: int)
    requires
        pre.wf(),
        0 <= i < pre.pages@.len(),
        post.pages@ == pre.pages@.remove(i),
        post.next_frame == pre.next_frame,
    ensures
        post.wf(),
        !post.is_mapped(pre.pages@[i].vpn as int),
        forall|v: int| v != pre.pages@[i].vpn
            ==> (#[trigger] post.is_mapped(v) <==> pre.is_mapped(v)),
        forall|v: int| v != pre.pages@[i].vpn && pre.is_mapped(v)
            ==> #[trigger] post.page_at(v) == pre.page_at(v),
{
    let rm = pre.pages@[i].vpn as int;
    assert(post.pages@.len() == pre.pages@.len() - 1);
    assert forall|j: int| 0 <= j < post.pages@.len()
        implies #[trigger] post.pages@[j] == (if j < i { pre.pages@[j] } else { pre.pages@[j + 1] }) by {
    }
    assert forall|j: int| 0 <= j < post.pages@.len()
        implies AddrSpace::page_wf(#[trigger] post.pages@[j]) by {
        if j < i {
            assert(AddrSpace::page_wf(pre.pages@[j]));
        } else {
            assert(AddrSpace::page_wf(pre.pages@[j + 1]));
        }
    }
    assert forall|a: int, b: int|
        0 <= a < post.pages@.len() && 0 <= b < post.pages@.len() && a != b
        implies (#[trigger] post.pages@[a]).vpn != (#[trigger] post.pages@[b]).vpn by {
        let a0 = if a < i { a } else { a + 1 };
        let b0 = if b < i { b } else { b + 1 };
        assert(pre.pages@[a0].vpn != pre.pages@[b0].vpn);
    }
    assert(post.wf());
    if post.is_mapped(rm) {
        let c = post.index_of(rm);
        let c0 = if c < i { c } else { c + 1 };
        assert(pre.pages@[c0].vpn == rm);
        assert(pre.pages@[i].vpn == rm);
        assert(false);
    }
    assert forall|v: int| v != rm
        implies (#[trigger] post.is_mapped(v) <==> pre.is_mapped(v)) by {
        if pre.is_mapped(v) {
            let c = pre.index_of(v);
            assert(pre.pages@[c].vpn == v);
            assert(c != i);
            if c < i {
                assert(post.pages@[c].vpn == v);
            } else {
                assert(post.pages@[c - 1].vpn == v);
            }
        }
        if post.is_mapped(v) {
            let c = post.index_of(v);
            let c0 = if c < i { c } else { c + 1 };
            assert(pre.pages@[c0].vpn == v);
        }
    }
    assert forall|v: int| v != rm && pre.is_mapped(v)
        implies #[trigger] post.page_at(v) == pre.page_at(v) by {
        let c = pre.index_of(v);
        assert(pre.pages@[c].vpn == v);
        pre.lemma_index_of(v, c);
        assert(c != i);
        if c < i {
            assert(post.pages@[c].vpn == v);
            post.lemma_index_of(v, c);
        } else {
            assert(post.pages@[c - 1].vpn == v);
            post.lemma_index_of(v, c - 1);
        }
    }
}

/// A page of zeroed bytes.
fn zeroed_page() -> (r: Vec<u8>)
    ensures
        r@ == zero_page_bytes(),
{
    let mut r: Vec<u8> = Vec::new();
    let mut i: usize = 0;
    while i < PAGE_SIZE
        invariant
            i <= PAGE_SIZE,
            r@ =~= Seq::new(i as nat, |t: int| 0u8),
        decreases PAGE_SIZE - i,
    {
        r.push(0u8);
        proof {
            assert(r@ =~= Seq::new(i as nat + 1, |t: int| 0u8));
        }
        i = i + 1;
    }
    proof {
        assert(r@ =~= zero_page_bytes());
    }
    r
}

/// A fresh byte vector holding the same bytes as `src`.
pub(crate) fn clone_bytes(src: &Vec<u8>) -> (r: Vec<u8>)
    ensures
        r@ == src@,
{
    let mut r: Vec<u8> = Vec::new();
    let mut i: usize = 0;
    while i < src.len()
        invariant
            i <= src@.len(),
            r@ == src@.take(i as int),
        decreases src@.len() - i,
    {
        r.push(src[i]);
        proof {
            assert(r@ =~= src@.take(i as int + 1));
        }
        i = i + 1;
    }
    proof {
        assert(r@ =~= src@);
    }
    r
}

/// The two spaces map exactly the same virtual pages, with the same
/// permission bits and backing frames; only the stored bytes may differ.
pub open spec fn same_mapping(pre: AddrSpace, post: AddrSpace) -> bool {
    &&& post.next_frame == pre.next_frame
    &&& forall|vpn: int| #[trigger] post.is_mapped(vpn) <==> pre.is_mapped(vpn)
    &&& forall|vpn: int|
            pre.is_mapped(vpn) ==> (#[trigger] post.page_at(vpn)).perm == pre.page_at(vpn).perm
                && post.page_at(vpn).frame == pre.page_at(vpn).frame
}

/// Outside the page range `[lo_vpn, hi_vpn)`, the two spaces agree on what
/// is mapped and on every mapped page's permission bits, frame and bytes.
pub open spec fn same_outside(pre: AddrSpace, post: AddrSpace, lo_vpn: int, hi_vpn: int) -> bool {
    forall|vpn: int|
        !(lo_vpn <= vpn < hi_vpn) ==> (#[trigger] post.is_mapped(vpn) <==> pre.is_mapped(vpn))
            && (pre.is_mapped(vpn) ==> post.page_at(vpn).perm == pre.page_at(vpn).perm
                && post.page_at(vpn).frame == pre.page_at(vpn).frame
                && post.page_at(vpn).data@ == pre.page_at(vpn).data@)
}

/// Sameness of mappings is transitive.
pub proof fn lemma_same_mapping_trans(a: AddrSpace, b: AddrSpace, c: AddrSpace)
    requires
        same_mapping(a, b),
        same_mapping(b, c),
    ensures
        same_mapping(a, c),
{
    assert forall|vpn: int| #[trigger] c.is_mapped(vpn) <==> a.is_mapped(vpn) by {
        assert(b.is_mapped(vpn) <==> a.is_mapped(vpn));
    }
    assert forall|vpn: int| a.is_mapped(vpn)
        implies (#[trigger] c.page_at(vpn)).perm == a.page_at(vpn).perm
            && c.page_at(vpn).frame == a.page_at(vpn).frame by {
        assert(b.is_mapped(vpn));
        assert(b.page_at(vpn).perm == a.page_at(vpn).perm);
    }
}

/// Smaller of two mathematical integers.
pub open spec fn min_int(a: int, b: int) -> int {
    if a < b { a } else { b }
}

/// Start address of segment `k` of the byte range beginning at `ptr`:
/// the range start for the first segment, a page boundary afterwards.
pub open spec fn seg_lo(ptr: int, k: int) -> int {
    if k == 0 { ptr } else { (ptr / PAGE_SIZE as int + k) * PAGE_SIZE }
}

/// End address (exclusive) of segment `k` of the byte range
/// `[ptr, ptr + len)`: a page boundary, or the range end in the last
/// segment.
pub open spec fn seg_hi(ptr: int, len: int, k: int) -> int {
    min_int(ptr + len, (ptr / PAGE_SIZE as int + k + 1) * PAGE_SIZE)
}

/// How many pages the byte range `[ptr, ptr + len)` touches.
pub open spec fn page_count(ptr: int, len: int) -> int {
    if len == 0 { 0 } else { (ptr + len - 1) / PAGE_SIZE as int - ptr / PAGE_SIZE as int + 1 }
}

/// The views of a sequence of byte buffers.
pub open spec fn views_of(bufs: Seq<Vec<u8>>) -> Seq<Seq<u8>> {
    bufs.map_values(|v: Vec<u8>| v@)
}

} // verus!
