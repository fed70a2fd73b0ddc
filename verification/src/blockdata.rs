//! Data of any length in a chain of blocks of one size, and a pool of such
//! blocks.

use crate::text::{self, push_decimal};
use crate::wire::push_bytes;
use vstd::prelude::*;

verus! {

/// Bytes in one block.
pub const KEYBLOCK_LEN: usize = 40;

/// One block of a chain.
#[derive(Debug)]
pub struct BlockDataNode {
    data: Box<[u8; KEYBLOCK_LEN]>,
    next: Option<Box<BlockDataNode>>,
}

impl BlockDataNode {
    /// A block that is in no chain.
    pub closed spec fn is_single(self) -> bool {
        self.next is None
    }

    /// A block of zeros that is in no chain.
    fn new() -> (r: Self)
        ensures
            r.is_single(),
            r.data@ == Seq::new(KEYBLOCK_LEN as nat, |i: int| 0u8),
    {
        let r = BlockDataNode { data: Box::new([0u8; KEYBLOCK_LEN]), next: None };
        assert(r.data@ =~= Seq::new(KEYBLOCK_LEN as nat, |i: int| 0u8));
        r
    }
}

/// The bytes of a length that are in its first block.
pub open spec fn first_part(len: nat) -> nat {
    if len < 40 {
        len
    } else {
        40
    }
}

/// The first `len` bytes in a chain.
spec fn chain_bytes(node: Option<Box<BlockDataNode>>, len: nat) -> Seq<u8>
    decreases node,
{
    match node {
        None => Seq::empty(),
        Some(n) => n.data@.take(first_part(len) as int) + chain_bytes(
            n.next,
            (len - first_part(len)) as nat,
        ),
    }
}

/// Whether a chain has as many blocks as `len` bytes need.
spec fn chain_fits(node: Option<Box<BlockDataNode>>, len: nat) -> bool
    decreases node,
{
    match node {
        None => len == 0,
        Some(n) => len > 0 && chain_fits(n.next, (len - first_part(len)) as nat),
    }
}

/// How many blocks are in a chain.
spec fn chain_len(node: Option<Box<BlockDataNode>>) -> nat
    decreases node,
{
    match node {
        None => 0,
        Some(n) => 1 + chain_len(n.next),
    }
}

/// How many blocks `len` bytes need.
pub open spec fn blocks_needed(len: nat) -> nat {
    (len + 39) / 40
}

/// The counts of a pool.
pub struct PoolStats {
    /// Blocks that wait to be used.
    pub free: nat,
    /// Blocks in use.
    pub used: usize,
    /// The most blocks that were in use at one time.
    pub peak: usize,
    /// Blocks that the pool was given.
    pub total: usize,
}

/// The counts after one block was taken out of a pool, which grows by fifty
/// blocks if it is empty.
pub open spec fn after_alloc(s: PoolStats) -> PoolStats {
    let used = s.used.wrapping_add(1);
    PoolStats {
        free: if s.free == 0 {
            49
        } else {
            (s.free - 1) as nat
        },
        used,
        peak: if used > s.peak {
            used
        } else {
            s.peak
        },
        total: if s.free == 0 {
            s.total.wrapping_add(50)
        } else {
            s.total
        },
    }
}

/// The counts after `n` blocks were taken out.
pub open spec fn after_allocs(s: PoolStats, n: nat) -> PoolStats
    decreases n,
{
    if n == 0 {
        s
    } else {
        after_alloc(after_allocs(s, (n - 1) as nat))
    }
}

/// The counts after `n` blocks were put back.
pub open spec fn after_frees(s: PoolStats, n: nat) -> PoolStats {
    PoolStats { free: s.free + n, used: s.used.wrapping_sub(n as usize), ..s }
}

/// A pool of blocks, with counts of those in use.
pub struct BlockAllocator {
    freelist: Vec<Box<BlockDataNode>>,
    count: usize,
    hwm: usize,
    allocated: usize,
}

impl BlockAllocator {
    #[verifier::type_invariant]
    spec fn all_single(self) -> bool {
        forall|i: int| 0 <= i < self.freelist@.len() ==> (#[trigger] self.freelist@[i]).is_single()
    }

    /// How many blocks wait to be used.
    pub closed spec fn free(self) -> nat {
        self.freelist@.len()
    }

    /// How many blocks are in use.
    pub closed spec fn used(self) -> usize {
        self.count
    }

    /// The most blocks that were in use at one time.
    pub closed spec fn peak(self) -> usize {
        self.hwm
    }

    /// How many blocks the pool was given.
    pub closed spec fn total(self) -> usize {
        self.allocated
    }

    /// The counts of the pool.
    pub open spec fn stats(self) -> PoolStats {
        PoolStats {
            free: self.free(),
            used: self.used(),
            peak: self.peak(),
            total: self.total(),
        }
    }

    /// An empty pool.
    pub fn new() -> (r: Self)
        ensures
            r.free() == 0,
            r.used() == 0,
            r.peak() == 0,
            r.total() == 0,
    {
        BlockAllocator { freelist: Vec::new(), count: 0, hwm: 0, allocated: 0 }
    }

    /// Gives the pool `n` more blocks.
    pub fn expand(&mut self, n: usize)
        ensures
            final(self).free() == old(self).free() + n,
            final(self).used() == old(self).used(),
            final(self).peak() == old(self).peak(),
            final(self).total() == old(self).total().wrapping_add(n),
    {
        let mut i: usize = 0;
        while i < n
            invariant
                i <= n,
                self.free() == old(self).free() + i,
                self.used() == old(self).used(),
                self.peak() == old(self).peak(),
                self.total() == old(self).total(),
            decreases n - i,
        {
            proof {
                use_type_invariant(&*self);
            }
            let mut list: Vec<Box<BlockDataNode>> = Vec::new();
            std::mem::swap(&mut list, &mut self.freelist);
            list.push(Box::new(BlockDataNode::new()));
            self.freelist = list;
            i = i + 1;
        }
        proof {
            use_type_invariant(&*self);
        }
        self.allocated = self.allocated.wrapping_add(n);
    }

    /// Takes a block out of the pool, which grows by fifty blocks if it is
    /// empty.
    pub fn alloc_block(&mut self) -> (r: Option<Box<BlockDataNode>>)
        ensures
            r matches Some(block) && block.is_single(),
            final(self).stats() == after_alloc(old(self).stats()),
    {
        if self.freelist.len() == 0 {
            self.expand(50);
        }
        proof {
            use_type_invariant(&*self);
        }
        let mut list: Vec<Box<BlockDataNode>> = Vec::new();
        std::mem::swap(&mut list, &mut self.freelist);
        let ghost before = list@;
        let block = list.pop();
        assert(before.last() == before[before.len() - 1]);
        self.freelist = list;
        self.count = self.count.wrapping_add(1);
        if self.count > self.hwm {
            self.hwm = self.count;
        }
        block
    }

    /// Puts the blocks of some data back into the pool.
    pub fn free_chain(&mut self, data: BlockData)
        ensures
            final(self).stats() == after_frees(old(self).stats(), data.blocks()),
    {
        proof {
            use_type_invariant(&data);
            lemma_chain_len(data.head, data.total_len as nat);
        }
        let total: usize = data.total_len;
        let ghost all = chain_len(data.head);
        let mut node = data.head;
        let mut count: usize = 0;
        while node.is_some()
            invariant
                self.free() == old(self).free() + count,
                self.used() == old(self).used(),
                self.peak() == old(self).peak(),
                self.total() == old(self).total(),
                count + chain_len(node) == all,
                all <= total,
            decreases node,
        {
            proof {
                use_type_invariant(&*self);
            }
            let mut block = match node {
                Some(b) => b,
                None => Box::new(BlockDataNode::new()),
            };
            node = block.next.take();
            let mut list: Vec<Box<BlockDataNode>> = Vec::new();
            std::mem::swap(&mut list, &mut self.freelist);
            list.push(block);
            self.freelist = list;
            count = count + 1;
        }
        proof {
            use_type_invariant(&*self);
        }
        self.count = self.count.wrapping_sub(count);
    }

    /// Empties the pool and its counts. With DNSSEC the pool starts with one
    /// block for each entry of the cache.
    pub fn reset(&mut self, cache_size: usize, dnssec_enabled: bool)
        ensures
            final(self).free() == (if dnssec_enabled {
                cache_size as nat
            } else {
                0
            }),
            final(self).used() == 0,
            final(self).peak() == 0,
            final(self).total() == final(self).free(),
    {
        *self = BlockAllocator::new();
        if dnssec_enabled && cache_size > 0 {
            self.expand(cache_size);
        }
    }

    /// Blocks in use, the most that were, and all blocks of the pool.
    pub fn get_stats(&self) -> (r: (usize, usize, usize))
        ensures
            r == (self.used(), self.peak(), self.total()),
    {
        (self.count, self.hwm, self.allocated)
    }
}

/// Data in a chain of blocks.
#[derive(Debug)]
pub struct BlockData {
    head: Option<Box<BlockDataNode>>,
    total_len: usize,
}

impl View for BlockData {
    type V = Seq<u8>;

    closed spec fn view(&self) -> Seq<u8> {
        chain_bytes(self.head, self.total_len as nat)
    }
}

/// Fewer bytes are there than were asked for.
#[derive(Debug, Clone, Copy, PartialEq, Eq, Structural)]
pub struct ShortRead {
    pub expected: usize,
    pub actual: usize,
}

impl BlockData {
    #[verifier::type_invariant]
    spec fn fits(self) -> bool {
        chain_fits(self.head, self.total_len as nat)
    }

    /// How many blocks the data takes.
    pub closed spec fn blocks(self) -> nat {
        chain_len(self.head)
    }

    /// No data.
    #[must_use]
    pub fn new() -> (r: Self)
        ensures
            r@ == Seq::<u8>::empty(),
            r.blocks() == 0,
    {
        BlockData { head: None, total_len: 0 }
    }

    /// A chain of new blocks with a copy of `data`.
    pub fn from_bytes(data: &[u8]) -> (r: Self)
        ensures
            r@ == data@,
            r.blocks() == blocks_needed(data@.len()),
    {
        let n: usize = data.len();
        let mut head: Option<Box<BlockDataNode>> = None;
        let mut pos: usize = n;
        assert(data@.skip(n as int) =~= Seq::<u8>::empty());
        while pos > 0
            invariant
                pos <= n == data@.len(),
                pos == n || pos % 40 == 0,
                chain_fits(head, (n - pos) as nat),
                chain_bytes(head, (n - pos) as nat) == data@.skip(pos as int),
                chain_len(head) == blocks_needed((n - pos) as nat),
            decreases pos,
        {
            let start: usize = (pos - 1) / 40 * 40;
            let ghost next = head;
            let block = fill_block(Box::new(BlockDataNode::new()), data, start, pos, head);
            head = Some(block);
            proof {
                lemma_link(head, next, data@, start as int, pos as int);
            }
            pos = start;
        }
        assert(data@.skip(0) =~= data@);
        BlockData { head, total_len: n }
    }

    /// A chain of blocks of the pool with a copy of `data`.
    pub fn from_pool(pool: &mut BlockAllocator, data: &[u8]) -> (r: Self)
        ensures
            r@ == data@,
            r.blocks() == blocks_needed(data@.len()),
            final(pool).stats() == after_allocs(old(pool).stats(), blocks_needed(data@.len())),
    {
        let n: usize = data.len();
        let mut head: Option<Box<BlockDataNode>> = None;
        let mut pos: usize = n;
        assert(data@.skip(n as int) =~= Seq::<u8>::empty());
        while pos > 0
            invariant
                pos <= n == data@.len(),
                pool.stats() == after_allocs(
                    old(pool).stats(),
                    blocks_needed((n - pos) as nat),
                ),
                pos == n || pos % 40 == 0,
                chain_fits(head, (n - pos) as nat),
                chain_bytes(head, (n - pos) as nat) == data@.skip(pos as int),
                chain_len(head) == blocks_needed((n - pos) as nat),
            decreases pos,
        {
            let start: usize = (pos - 1) / 40 * 40;
            let ghost next = head;
            let empty = match pool.alloc_block() {
                Some(block) => block,
                None => Box::new(BlockDataNode::new()),
            };
            let block = fill_block(empty, data, start, pos, head);
            head = Some(block);
            proof {
                lemma_link(head, next, data@, start as int, pos as int);
            }
            pos = start;
        }
        assert(data@.skip(0) =~= data@);
        BlockData { head, total_len: n }
    }

    /// Takes exactly `len` bytes of what was read.
    pub fn from_reader(reader: &[u8], len: usize) -> (r: Result<Self, ShortRead>)
        ensures
            match r {
                Ok(data) => len <= reader@.len() && data@ == reader@.take(len as int),
                Err(e) => len > reader@.len() && e == (ShortRead {
                    expected: len,
                    actual: reader@.len() as usize,
                }),
            },
    {
        if reader.len() < len {
            return Err(ShortRead { expected: len, actual: reader.len() });
        }
        let part = vstd::slice::slice_subrange(reader, 0, len);
        assert(part@ =~= reader@.take(len as int));
        Ok(BlockData::from_bytes(part))
    }

    /// The data in one piece.
    #[must_use]
    pub fn to_bytes(&self) -> (r: Vec<u8>)
        ensures
            r@ == self@,
    {
        let mut result: Vec<u8> = Vec::new();
        self.write_to(&mut result);
        assert(result@ =~= self@);
        result
    }

    /// Appends the data to what is to be written.
    pub fn write_to(&self, writer: &mut Vec<u8>)
        ensures
            final(writer)@ == old(writer)@ + self@,
    {
        proof {
            use_type_invariant(self);
        }
        let mut node = &self.head;
        let mut remaining: usize = self.total_len;
        let ghost start = writer@;
        let ghost done = Seq::<u8>::empty();
        assert(start + done =~= start);
        assert(done + self@ =~= self@);
        while node.is_some()
            invariant
                chain_fits(*node, remaining as nat),
                writer@ == start + done,
                self@ == done + chain_bytes(*node, remaining as nat),
            decreases *node,
        {
            let current = match node {
                Some(current) => current,
                None => {
                    return;
                },
            };
            let part: usize = if remaining < KEYBLOCK_LEN {
                remaining
            } else {
                KEYBLOCK_LEN
            };
            let block = vstd::slice::slice_subrange(array_slice(&current.data), 0, part);
            proof {
                let rest = chain_bytes(current.next, (remaining - part) as nat);
                assert(block@ =~= current.data@.take(part as int));
                assert(done + (block@ + rest) =~= (done + block@) + rest);
                assert(start + (done + block@) =~= (start + done) + block@);
                done = done + block@;
            }
            push_bytes(writer, block);
            remaining = remaining - part;
            node = &current.next;
        }
        assert(done + Seq::<u8>::empty() =~= done);
    }

    /// Copies as much of the data as fits into `buffer`, and tells how much
    /// that is.
    pub fn copy_to_buffer(&self, buffer: &mut [u8]) -> (r: usize)
        ensures
            r == (if self@.len() < old(buffer)@.len() {
                self@.len()
            } else {
                old(buffer)@.len()
            }),
            final(buffer)@ == self@.take(r as int) + old(buffer)@.skip(r as int),
    {
        let bytes = self.to_bytes();
        let n: usize = if bytes.len() < buffer.len() {
            bytes.len()
        } else {
            buffer.len()
        };
        let mut i: usize = 0;
        assert(self@.take(0) + old(buffer)@.skip(0) =~= old(buffer)@);
        while i < n
            invariant
                i <= n <= bytes@.len(),
                n <= buffer@.len() == old(buffer)@.len(),
                bytes@ == self@,
                buffer@ == self@.take(i as int) + old(buffer)@.skip(i as int),
            decreases n - i,
        {
            buffer[i] = bytes[i];
            i = i + 1;
            assert(buffer@ =~= self@.take(i as int) + old(buffer)@.skip(i as int));
        }
        n
    }

    /// How many bytes the data has.
    #[must_use]
    pub fn len(&self) -> (r: usize)
        ensures
            r == self@.len(),
    {
        proof {
            use_type_invariant(self);
            lemma_chain_bytes_len(self.head, self.total_len as nat);
        }
        self.total_len
    }

    /// Whether there is no data.
    #[must_use]
    pub fn is_empty(&self) -> (r: bool)
        ensures
            r == (self@.len() == 0),
    {
        self.len() == 0
    }
}

impl Default for BlockData {
    fn default() -> (r: Self)
        ensures
            r@ == Seq::<u8>::empty(),
    {
        BlockData::new()
    }
}

impl Clone for BlockData {
    fn clone(&self) -> (r: Self)
        ensures
            r@ == self@,
    {
        BlockData::from_bytes(self.to_bytes().as_slice())
    }
}

fn array_slice(a: &Box<[u8; KEYBLOCK_LEN]>) -> (r: &[u8])
    ensures
        r@ == a@,
{
    vstd::array::array_as_slice(&**a)
}

/// Copies the bytes from `start` up to `end` into a block that is put before
/// `next`.
fn fill_block(
    block: Box<BlockDataNode>,
    data: &[u8],
    start: usize,
    end: usize,
    next: Option<Box<BlockDataNode>>,
) -> (r: Box<BlockDataNode>)
    requires
        start < end <= data@.len(),
        end - start <= 40,
    ensures
        r.next == next,
        r.data@.take(end - start) == data@.subrange(start as int, end as int),
{
    let mut bytes: [u8; KEYBLOCK_LEN] = *block.data;
    let n: usize = end - start;
    let mut i: usize = 0;
    while i < n
        invariant
            i <= n == end - start,
            n <= 40,
            start < end <= data@.len(),
            bytes@.len() == 40,
            forall|k: int| 0 <= k < i ==> bytes@[k] == data@[start + k],
        decreases n - i,
    {
        bytes[i] = data[start + i];
        i = i + 1;
    }
    assert(bytes@.take(n as int) =~= data@.subrange(start as int, end as int));
    Box::new(BlockDataNode { data: Box::new(bytes), next })
}

/// Putting a block before a chain puts its bytes before those of the chain.
proof fn lemma_link(
    head: Option<Box<BlockDataNode>>,
    next: Option<Box<BlockDataNode>>,
    data: Seq<u8>,
    start: int,
    pos: int,
)
    requires
        0 <= start < pos <= data.len(),
        pos - start <= 40,
        start % 40 == 0,
        start == (pos - 1) / 40 * 40,
        pos == data.len() || pos % 40 == 0,
        head matches Some(n) && n.next == next && n.data@.take(pos - start) == data.subrange(
            start,
            pos,
        ),
        chain_fits(next, (data.len() - pos) as nat),
        chain_bytes(next, (data.len() - pos) as nat) == data.skip(pos),
        chain_len(next) == blocks_needed((data.len() - pos) as nat),
    ensures
        chain_fits(head, (data.len() - start) as nat),
        chain_bytes(head, (data.len() - start) as nat) == data.skip(start),
        chain_len(head) == blocks_needed((data.len() - start) as nat),
{
    let len = (data.len() - start) as nat;
    if pos < data.len() {
        assert(pos % 40 == 0);
        assert(pos - start == 40);
    }
    assert(first_part(len) == pos - start);
    assert(data.subrange(start, pos) + data.skip(pos) =~= data.skip(start));
}

proof fn lemma_chain_len(node: Option<Box<BlockDataNode>>, len: nat)
    requires
        chain_fits(node, len),
    ensures
        chain_len(node) == blocks_needed(len),
        chain_len(node) <= len,
    decreases node,
{
    if let Some(n) = node {
        lemma_chain_len(n.next, (len - first_part(len)) as nat);
    }
}

proof fn lemma_chain_bytes_len(node: Option<Box<BlockDataNode>>, len: nat)
    requires
        chain_fits(node, len),
    ensures
        chain_bytes(node, len).len() == len,
    decreases node,
{
    if let Some(n) = node {
        lemma_chain_bytes_len(n.next, (len - first_part(len)) as nat);
    }
}

/// Data that is stored in blocks of a pool and put back leaves as many blocks
/// in use as before.
pub proof fn law_pool_balance(s: PoolStats, len: nat)
    requires
        blocks_needed(len) <= usize::MAX,
    ensures
        after_frees(after_allocs(s, blocks_needed(len)), blocks_needed(len)).used == s.used,
{
    lemma_allocs_used(s, blocks_needed(len));
}

proof fn lemma_allocs_used(s: PoolStats, n: nat)
    requires
        n <= usize::MAX,
    ensures
        after_allocs(s, n).used == s.used.wrapping_add(n as usize),
    decreases n,
{
    if n > 0 {
        lemma_allocs_used(s, (n - 1) as nat);
    }
}

/// A pool for a cache of the given size.
pub fn init(cache_size: usize, dnssec_enabled: bool) -> (r: BlockAllocator)
    ensures
        r.free() == (if dnssec_enabled {
            cache_size as nat
        } else {
            0
        }),
        r.used() == 0,
        r.peak() == 0,
        r.total() == r.free(),
{
    let mut pool = BlockAllocator::new();
    pool.reset(cache_size, dnssec_enabled);
    pool
}

/// What the pool takes in bytes, for blocks of `block_size` bytes: in use, at
/// most, and in all.
pub fn report(pool: &BlockAllocator, block_size: usize) -> (r: String)
    requires
        pool.used() * block_size <= usize::MAX,
        pool.peak() * block_size <= usize::MAX,
        pool.total() * block_size <= usize::MAX,
    ensures
        r@ == "blockdata pool: "@ + text::decimal((pool.used() * block_size) as nat)
            + " bytes in use, "@ + text::decimal((pool.peak() * block_size) as nat) + " max, "@
            + text::decimal((pool.total() * block_size) as nat) + " allocated"@,
{
    let (count, hwm, allocated) = pool.get_stats();
    let mut s: String = String::new();
    s.append("blockdata pool: ");
    push_decimal(&mut s, (count * block_size) as u64);
    s.append(" bytes in use, ");
    push_decimal(&mut s, (hwm * block_size) as u64);
    s.append(" max, ");
    push_decimal(&mut s, (allocated * block_size) as u64);
    s.append(" allocated");
    assert(s@ =~= "blockdata pool: "@ + text::decimal((pool.used() * block_size) as nat)
        + " bytes in use, "@ + text::decimal((pool.peak() * block_size) as nat) + " max, "@
        + text::decimal((pool.total() * block_size) as nat) + " allocated"@);
    s
}

/// Data takes as many blocks of forty bytes as it needs, and no more.
pub proof fn law_blocks_needed(len: nat)
    ensures
        blocks_needed(len) * 40 >= len,
        len > 0 ==> (blocks_needed(len) - 1) * 40 < len,
        len == 0 ==> blocks_needed(len) == 0,
{
}

/// A block is taken from the free ones; where there is none, fifty are made first. What
/// is free and what is used together are what was made.
pub proof fn law_block_is_taken(s: PoolStats)
    requires
        s.total == s.free + s.used,
        s.total <= usize::MAX - 50,
    ensures
        ({
            let after = after_alloc(s);
            &&& after.used == s.used + 1
            &&& after.total == s.total + if s.free == 0 {
                50int
            } else {
                0
            }
            &&& after.total == after.free + after.used
            &&& after.peak >= after.used && after.peak >= s.peak
            &&& after.peak == after.used || after.peak == s.peak
        }),
{
}

/// Blocks that are given back are free again, and no longer used.
pub proof fn law_blocks_are_given_back(s: PoolStats, n: nat)
    requires
        n <= s.used,
    ensures
        after_frees(s, n).free == s.free + n,
        after_frees(s, n).used == s.used - n,
        after_frees(s, n).peak == s.peak,
        after_frees(s, n).total == s.total,
{
}

} // verus!
