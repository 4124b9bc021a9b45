use vstd::prelude::*;

verus! {

/// Size of the sliding window, and of the `prev` array.
pub const WINDOW_SIZE: usize = 32768;

/// Number of hash buckets.
pub const HASH_SIZE: usize = 32768;

/// Number of bytes that one hash value covers.
pub const HASH_BYTES: usize = 3;

/// Number of bits by which one byte moves the rolling hash.
pub const HASH_SHIFT: u16 = 5;

/// The bits that a hash value keeps.
pub const HASH_MASK: u16 = 32767;

/// The rolling hash after one more byte.
pub open spec fn roll(hash: u16, byte: u8) -> u16 {
    ((hash << HASH_SHIFT) ^ (byte as u16)) & HASH_MASK
}

/// The rolling hash primed with the first two bytes of the input.
pub open spec fn start_hash(v1: u8, v2: u8) -> u16 {
    roll(v1 as u16, v2)
}

/// A rolled hash stays below the number of buckets.
proof fn lemma_roll_bound(hash: u16, byte: u8)
    by (bit_vector)
    ensures
        (((hash << 5u16) ^ (byte as u16)) & 32767u16) < 32768u16,
{
}

/// Rolls `hash` forward by one byte.
pub fn update_hash(hash: u16, byte: u8) -> (h: u16)
    ensures
        h == roll(hash, byte),
        h < HASH_SIZE,
{
    proof {
        lemma_roll_bound(hash, byte);
    }
    ((hash << HASH_SHIFT) ^ (byte as u16)) & HASH_MASK
}

/// What a table holds, as plain values.
pub struct TableState {
    /// The rolling hash of the bytes inserted last.
    pub hash: u16,
    /// For each hash value, the position inserted last under it.
    pub heads: Seq<usize>,
    /// For each position modulo the window size, its predecessor.
    pub links: Seq<usize>,
}

/// The table without any position, its hash at `hash`.
pub open spec fn empty_table(hash: u16) -> TableState {
    TableState {
        hash,
        heads: Seq::new(HASH_SIZE as nat, |i: int| 0usize),
        links: Seq::new(WINDOW_SIZE as nat, |i: int| 0usize),
    }
}

/// The table after `position` was inserted with `byte` as the last byte of
/// its hash: the hash rolls forward, `position` becomes the head of the
/// chain of the new hash, and the former head its predecessor.
pub open spec fn table_insert(t: TableState, position: int, byte: u8) -> TableState {
    let h = roll(t.hash, byte);
    TableState {
        hash: h,
        heads: t.heads.update(h as int, position as usize),
        links: t.links.update(position % (WINDOW_SIZE as int), t.heads[h as int]),
    }
}

/// Hash chains over the positions of the input: `head` holds, for each hash
/// value, the last position inserted under it, and `prev` links a position
/// to the one that `head` held before it.
pub struct ChainedHashTable {
    current_hash: u16,
    head: Vec<usize>,
    prev: Vec<usize>,
}

impl ChainedHashTable {
    /// The hash is a bucket, and both arrays have their full size.
    pub closed spec fn wf(&self) -> bool {
        &&& self.current_hash < HASH_SIZE
        &&& self.head@.len() == HASH_SIZE
        &&& self.prev@.len() == WINDOW_SIZE
    }

    /// The rolling hash of the bytes inserted last.
    pub closed spec fn hash(&self) -> u16 {
        self.current_hash
    }

    /// For each hash value, the position inserted last under it.
    pub closed spec fn heads(&self) -> Seq<usize> {
        self.head@
    }

    /// For each position modulo the window size, its predecessor in its chain.
    pub closed spec fn links(&self) -> Seq<usize> {
        self.prev@
    }

    /// What the table holds.
    pub open spec fn view(&self) -> TableState {
        TableState { hash: self.hash(), heads: self.heads(), links: self.links() }
    }

    /// The sizes that a well-formed table has.
    pub proof fn lemma_wf(&self)
        requires
            self.wf(),
        ensures
            self.hash() < HASH_SIZE,
            self.heads().len() == HASH_SIZE,
            self.links().len() == WINDOW_SIZE,
    {
    }

    /// `n` zeros.
    fn zeros(n: usize) -> (v: Vec<usize>)
        ensures
            v@ == Seq::new(n as nat, |i: int| 0usize),
    {
        let mut v: Vec<usize> = Vec::new();
        let mut i: usize = 0;
        while i < n
            invariant
                i <= n,
                v@ == Seq::new(i as nat, |k: int| 0usize),
            decreases n - i,
        {
            v.push(0);
            i = i + 1;
            assert(v@ =~= Seq::new(i as nat, |k: int| 0usize));
        }
        v
    }

    /// An empty table: hash 0, every head and link 0.
    pub fn new() -> (t: ChainedHashTable)
        ensures
            t.wf(),
            t@ == empty_table(0),
    {
        ChainedHashTable {
            current_hash: 0,
            head: Self::zeros(HASH_SIZE),
            prev: Self::zeros(WINDOW_SIZE),
        }
    }

    /// An empty table whose hash is primed with the first two input bytes.
    pub fn from_starting_values(v1: u8, v2: u8) -> (t: ChainedHashTable)
        ensures
            t.wf(),
            t@ == empty_table(start_hash(v1, v2)),
    {
        let mut t = ChainedHashTable::new();
        t.current_hash = update_hash(v1 as u16, v2);
        t
    }

    /// Rolls the hash forward by `value` and puts `position` at the head of
    /// the chain of the new hash; the former head becomes its predecessor.
    pub fn add_hash_value(&mut self, position: usize, value: u8)
        requires
            old(self).wf(),
        ensures
            final(self).wf(),
            final(self)@ == table_insert(old(self)@, position as int, value),
    {
        let h = update_hash(self.current_hash, value);
        self.current_hash = h;
        let before = self.head[h as usize];
        self.prev.set(position % WINDOW_SIZE, before);
        self.head.set(h as usize, position);
    }

    /// The position inserted last.
    pub fn current_head(&self) -> (p: usize)
        requires
            self.wf(),
        ensures
            p == self@.heads[self@.hash as int],
    {
        self.head[self.current_hash as usize]
    }

    /// The predecessor of `position` in its chain.
    pub fn get_prev(&self, position: usize) -> (p: usize)
        requires
            self.wf(),
        ensures
            p == self@.links[position as int % WINDOW_SIZE as int],
    {
        self.prev[position % WINDOW_SIZE]
    }
}

/// Hash, heads and links of the table after the first `n` positions of
/// `data` were inserted in order, each with the byte two places after it.
pub open spec fn filled(data: Seq<u8>, n: nat) -> TableState
    decreases n,
{
    if n == 0 {
        empty_table(start_hash(data[0], data[1]))
    } else {
        table_insert(filled(data, (n - 1) as nat), n - 1, data[n as int + 1])
    }
}

/// In a table that holds the first `n` positions, every head is one of
/// them, and every position that is still inside the window links to an
/// older one; a chain ends where it reaches position 0.
pub proof fn lemma_filled_links_back(data: Seq<u8>, n: nat)
    requires
        n <= usize::MAX,
    ensures
        filled(data, n).hash < HASH_SIZE,
        filled(data, n).heads.len() == HASH_SIZE,
        filled(data, n).links.len() == WINDOW_SIZE,
        forall|h: int|
            0 <= h < HASH_SIZE ==> {
                let head = #[trigger] filled(data, n).heads[h];
                head < n || head == 0
            },
        forall|p: int|
            0 <= p < n && n - p <= WINDOW_SIZE ==> {
                let link = #[trigger] filled(data, n).links[p % (WINDOW_SIZE as int)];
                link < p || link == 0
            },
    decreases n,
{
    if n == 0 {
        lemma_roll_bound(data[0] as u16, data[1]);
    } else {
        let before = filled(data, (n - 1) as nat);
        let byte = data[n as int + 1];
        lemma_filled_links_back(data, (n - 1) as nat);
        lemma_roll_bound(before.hash, byte);
        let after = filled(data, n);
        let window = WINDOW_SIZE as int;
        assert forall|p: int| 0 <= p < n && n - p <= WINDOW_SIZE implies {
            let link = #[trigger] after.links[p % window];
            link < p || link == 0
        } by {
            if p < n - 1 {
                assert(p % window != (n - 1) % window);
                assert(after.links[p % window] == before.links[p % window]);
            } else {
                assert(before.heads[after.hash as int] < n - 1 || before.heads[after.hash as int]
                    == 0);
            }
        }
    }
}

/// The table after the positions `0 .. data.len() - 2` of `data` were
/// inserted in order.
pub fn filled_hash_table(data: &[u8]) -> (t: ChainedHashTable)
    requires
        data@.len() >= 2,
    ensures
        t.wf(),
        t@ == filled(data@, (data@.len() - 2) as nat),
{
    let mut t = ChainedHashTable::from_starting_values(data[0], data[1]);
    let mut n: usize = 2;
    while n < data.len()
        invariant
            2 <= n <= data@.len(),
            t.wf(),
            t@ == filled(data@, (n - 2) as nat),
        decreases data@.len() - n,
    {
        t.add_hash_value(n - 2, data[n]);
        n = n + 1;
    }
    t
}

} // verus!
