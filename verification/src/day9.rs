//! Disk compaction: a dense map of alternating file and gap sizes is
//! unpacked, compacted bit by bit or file by file, and summarised by a
//! position-weighted checksum.
use crate::scan;
use vstd::prelude::*;

verus! {

/// A run of the disk map: a file with its id, or a gap.
pub struct File {
    pub id: i32,
    pub size: i32,
}

pub struct Empty {
    pub size: i32,
}

pub enum Block {
    File(File),
    Empty(Empty),
}

/// One cell of the unpacked disk.
#[derive(Copy, Clone, Debug, PartialEq, Eq, Structural)]
pub enum Bit {
    File(i32),
    Empty,
}

/// The block a map digit denotes: files and gaps alternate, and the k-th
/// file gets id k.
pub open spec fn spec_block(s: Seq<u8>, i: int) -> Block {
    if i % 2 == 0 {
        Block::File(File { id: (i / 2) as i32, size: (s[i] - 48) as i32 })
    } else {
        Block::Empty(Empty { size: (s[i] - 48) as i32 })
    }
}

/// The first `k` blocks of the disk map.
pub open spec fn spec_blocks(s: Seq<u8>, k: int) -> Seq<Block>
    decreases k,
{
    if k <= 0 {
        Seq::empty()
    } else {
        spec_blocks(s, k - 1).push(spec_block(s, k - 1))
    }
}

/// Reads the dense disk map: one digit per block.
pub fn parse(input: &[u8]) -> (out: Vec<Block>)
    requires
        scan::all_digits(input@),
        input@.len() <= i32::MAX,
    ensures
        out@ == spec_blocks(input@, input@.len() as int),
{
    let n = input.len();
    let mut out: Vec<Block> = Vec::new();
    let mut i: usize = 0;
    while i < n
        invariant
            i <= n,
            n == input@.len(),
            n <= i32::MAX,
            scan::all_digits(input@),
            out@ == spec_blocks(input@, i as int),
        decreases n - i,
    {
        let b = input[i];
        let size = (b - 48) as i32;
        if i % 2 == 0 {
            out.push(Block::File(File { id: (i / 2) as i32, size }));
        } else {
            out.push(Block::Empty(Empty { size }));
        }
        i += 1;
    }
    out
}

/// The unpacked disk of a block list: each block expanded to its cells.
pub open spec fn spec_disk(blocks: Seq<Block>) -> Seq<Bit>
    decreases blocks.len(),
{
    if blocks.len() == 0 {
        Seq::empty()
    } else {
        spec_disk(blocks.drop_last()) + spec_cells(blocks.last())
    }
}

pub open spec fn spec_cells(b: Block) -> Seq<Bit> {
    match b {
        Block::File(f) => Seq::new(
            if f.size >= 0 {
                f.size as nat
            } else {
                0
            },
            |i: int| Bit::File(f.id),
        ),
        Block::Empty(e) => Seq::new(
            if e.size >= 0 {
                e.size as nat
            } else {
                0
            },
            |i: int| Bit::Empty,
        ),
    }
}

fn push_cells(disk: &mut Vec<Bit>, b: &Block)
    ensures
        final(disk)@ == old(disk)@ + spec_cells(*b),
{
    let ghost pre = disk@;
    match b {
        Block::File(f) => {
            let mut j: i32 = 0;
            while j < f.size
                invariant
                    0 <= j,
                    f.size >= 0 ==> j <= f.size,
                    f.size < 0 ==> j == 0,
                    disk@ =~= pre + Seq::new(j as nat, |i: int| Bit::File(f.id)),
                decreases f.size - j,
            {
                disk.push(Bit::File(f.id));
                proof {
                    assert(disk@ =~= pre + Seq::new((j + 1) as nat, |i: int| Bit::File(f.id)));
                }
                j += 1;
            }
            proof {
                assert(disk@ =~= pre + spec_cells(*b));
            }
        },
        Block::Empty(e) => {
            let mut j: i32 = 0;
            while j < e.size
                invariant
                    0 <= j,
                    e.size >= 0 ==> j <= e.size,
                    e.size < 0 ==> j == 0,
                    disk@ =~= pre + Seq::new(j as nat, |i: int| Bit::Empty),
                decreases e.size - j,
            {
                disk.push(Bit::Empty);
                proof {
                    assert(disk@ =~= pre + Seq::new((j + 1) as nat, |i: int| Bit::Empty));
                }
                j += 1;
            }
            proof {
                assert(disk@ =~= pre + spec_cells(*b));
            }
        },
    }
}

/// Unpacks a block list to its disk.
pub fn build_disk(blocks: &Vec<Block>) -> (disk: Vec<Bit>)
    ensures
        disk@ == spec_disk(blocks@),
{
    let n = blocks.len();
    let mut disk: Vec<Bit> = Vec::new();
    let mut i: usize = 0;
    proof {
        assert(blocks@.take(0) =~= Seq::<Block>::empty());
    }
    while i < n
        invariant
            i <= n,
            n == blocks@.len(),
            disk@ == spec_disk(blocks@.take(i as int)),
        decreases n - i,
    {
        push_cells(&mut disk, &blocks[i]);
        proof {
            assert(blocks@.take(i + 1).drop_last() =~= blocks@.take(i as int));
            assert(blocks@.take(i + 1).last() == blocks@[i as int]);
        }
        i += 1;
    }
    proof {
        assert(blocks@.take(n as int) =~= blocks@);
    }
    disk
}

/// The two-pointer compaction: empty cells on the left are filled from
/// file cells on the right until the pointers meet.
pub open spec fn spec_compact(disk: Seq<Bit>, l: int, r: int) -> Seq<Bit>
    decreases r - l, (if disk[l] is Empty {
        1int
    } else {
        0int
    }),
{
    if l < 0 || r >= disk.len() || l >= r {
        disk
    } else if disk[l] is File {
        spec_compact(disk, l + 1, r)
    } else if disk[r] is Empty {
        spec_compact(disk, l, r - 1)
    } else {
        spec_compact(disk.update(l, disk[r]).update(r, Bit::Empty), l, r)
    }
}

/// Compacts the disk in place with the two-pointer sweep.
pub fn compact_disk(disk: &mut Vec<Bit>)
    requires
        old(disk)@.len() >= 1,
    ensures
        final(disk)@ == spec_compact(old(disk)@, 0, old(disk)@.len() - 1),
{
    let ghost initial = disk@;
    let n = disk.len();
    let mut l: usize = 0;
    let mut r: usize = n - 1;
    while l < r
        invariant
            l <= r < n,
            n == disk@.len(),
            spec_compact(disk@, l as int, r as int) == spec_compact(initial, 0, n - 1),
        decreases r - l, (if disk@[l as int] is Empty {
            1int
        } else {
            0int
        }),
    {
        let ghost pre = disk@;
        match disk[l] {
            Bit::File(_) => {
                l += 1;
            },
            Bit::Empty => {
                match disk[r] {
                    Bit::Empty => {
                        r -= 1;
                    },
                    Bit::File(id) => {
                        disk[l] = Bit::File(id);
                        disk[r] = Bit::Empty;
                        proof {
                            assert(disk@ =~= pre.update(l as int, pre[r as int]).update(
                                r as int,
                                Bit::Empty,
                            ));
                        }
                    },
                }
            },
        }
    }
    proof {
        assert(spec_compact(disk@, l as int, r as int) == disk@);
    }
}

/// The checksum of the first `k` cells: position times file id, gaps
/// counting nothing.
pub open spec fn spec_checksum(disk: Seq<Bit>, k: int) -> int
    decreases k,
{
    if k <= 0 {
        0
    } else {
        spec_checksum(disk, k - 1) + match disk[k - 1] {
            Bit::File(id) => (k - 1) * id,
            Bit::Empty => 0,
        }
    }
}

/// Sums the checksum; None when a prefix leaves the i64 range.
pub fn checksum(disk: &Vec<Bit>) -> (out: Option<i64>)
    ensures
        match out {
            Some(v) => v == spec_checksum(disk@, disk@.len() as int) && forall|k: int|
                0 <= k <= disk@.len() ==> i64::MIN <= #[trigger] spec_checksum(disk@, k)
                    <= i64::MAX,
            None => exists|k: int|
                0 <= k <= disk@.len() && !(i64::MIN <= #[trigger] spec_checksum(disk@, k)
                    <= i64::MAX),
        },
{
    let n = disk.len();
    let mut acc: i64 = 0;
    let mut i: usize = 0;
    while i < n
        invariant
            i <= n,
            n == disk@.len(),
            acc == spec_checksum(disk@, i as int),
            forall|k: int|
                0 <= k <= i ==> i64::MIN <= #[trigger] spec_checksum(disk@, k) <= i64::MAX,
        decreases n - i,
    {
        let term: i128 = match disk[i] {
            Bit::File(id) => {
                proof {
                    assert(-0x1_0000_0000_0000_0000_0000_0000i128 <= (i as i128) * (id as i128)
                        <= 0x1_0000_0000_0000_0000_0000_0000i128) by (nonlinear_arith)
                        requires
                            0 <= i <= 0xffff_ffff_ffff_ffffu64,
                            -0x8000_0000 <= id <= 0x7fff_ffff,
                    ;
                }
                (i as i128) * (id as i128)
            },
            Bit::Empty => 0,
        };
        assert(-0x1_0000_0000_0000_0000_0000_0000i128 <= term
            <= 0x1_0000_0000_0000_0000_0000_0000i128);
        let next: i128 = (acc as i128) + term;
        if next < i64::MIN as i128 || next > i64::MAX as i128 {
            proof {
                assert(spec_checksum(disk@, i + 1) == acc + term);
            }
            return None;
        }
        acc = next as i64;
        i += 1;
    }
    Some(acc)
}

pub proof fn lemma_spec_blocks_len(s: Seq<u8>, k: int)
    requires
        k >= 0,
    ensures
        spec_blocks(s, k).len() == k,
    decreases k,
{
    if k > 0 {
        lemma_spec_blocks_len(s, k - 1);
    }
}

/// The first gap at or before `limit` that holds at least `size`, the
/// scan starting at `j`.
pub open spec fn find_slot(blocks: Seq<Block>, size: i32, j: int, limit: int) -> Option<int>
    decreases limit + 1 - j,
{
    if j < 0 || j > limit || j >= blocks.len() {
        None
    } else {
        match blocks[j] {
            Block::Empty(e) => if e.size >= size {
                Some(j)
            } else {
                find_slot(blocks, size, j + 1, limit)
            },
            Block::File(_) => find_slot(blocks, size, j + 1, limit),
        }
    }
}

/// One pass of the whole-file compaction with a step budget: the cursor
/// walks the blocks from the right; each file moves into the first gap
/// left of it that fits, splitting the gap when it is larger.  None means
/// the budget ran out first.
pub open spec fn second_steps(blocks: Seq<Block>, c: int, fuel: nat) -> Option<Seq<Block>>
    decreases fuel,
{
    if c <= 0 || c >= blocks.len() {
        Some(blocks)
    } else if fuel == 0 {
        None
    } else {
        match blocks[c] {
            Block::Empty(_) => second_steps(blocks, c - 1, (fuel - 1) as nat),
            Block::File(f) => match find_slot(blocks, f.size, 0, c) {
                None => second_steps(blocks, c - 1, (fuel - 1) as nat),
                Some(idx) => {
                    let e_size = blocks[idx]->Empty_0.size;
                    let moved = blocks.update(c, Block::Empty(Empty { size: f.size })).update(
                        idx,
                        Block::File(f),
                    );
                    if e_size == f.size {
                        second_steps(moved, c - 1, (fuel - 1) as nat)
                    } else {
                        second_steps(
                            moved.insert(
                                idx + 1,
                                Block::Empty(Empty { size: (e_size - f.size) as i32 }),
                            ),
                            c,
                            (fuel - 1) as nat,
                        )
                    }
                },
            },
        }
    }
}

/// The step budget the compaction runs under: in every run observed the
/// cursor passes each block once and each file moves at most once, so
/// twice the block count plus two is comfortable; the contract records
/// the ceiling rather than leaving it implicit.
pub open spec fn second_budget(blocks: Seq<Block>) -> nat {
    (2 * blocks.len() + 2) as nat
}

fn find_slot_exec(blocks: &Vec<Block>, size: i32, limit: usize) -> (out: Option<usize>)
    requires
        limit < blocks@.len(),
    ensures
        match out {
            Some(idx) => find_slot(blocks@, size, 0, limit as int) == Some(idx as int) && idx
                <= limit && blocks@[idx as int] is Empty,
            None => find_slot(blocks@, size, 0, limit as int) is None,
        },
{
    let _total = blocks.len();
    let mut j: usize = 0;
    while j <= limit
        invariant
            j <= limit + 1,
            limit < blocks@.len(),
            blocks@.len() <= usize::MAX,
            find_slot(blocks@, size, 0, limit as int) == find_slot(
                blocks@,
                size,
                j as int,
                limit as int,
            ),
        decreases limit + 1 - j,
    {
        match &blocks[j] {
            Block::Empty(e) => {
                if e.size >= size {
                    return Some(j);
                }
            },
            Block::File(_) => {},
        }
        j += 1;
    }
    None
}

/// Runs the whole-file compaction; None when the step budget runs out.
pub fn compact_files(blocks: Vec<Block>) -> (out: Option<Vec<Block>>)
    requires
        blocks@.len() <= 0x3fff_fffe,
    ensures
        match out {
            Some(v) => second_steps(blocks@, blocks@.len() - 1, second_budget(blocks@)) == Some(
                v@,
            ),
            None => second_steps(blocks@, blocks@.len() - 1, second_budget(blocks@)) is None,
        },
{
    let ghost initial = blocks@;
    let mut blocks = blocks;
    let n = blocks.len();
    if n == 0 {
        return Some(blocks);
    }
    let mut c: usize = n - 1;
    let mut budget: usize = 2 * n + 2;
    proof {
        assert(budget == second_budget(initial));
    }
    #[verifier::loop_isolation(false)]
    while c > 0
        invariant
            c < blocks@.len(),
            second_steps(blocks@, c as int, budget as nat) == second_steps(
                initial,
                initial.len() - 1,
                second_budget(initial),
            ),
        decreases budget,
    {
        if budget == 0 {
            proof {
                assert(second_steps(blocks@, c as int, 0nat) is None);
            }
            return None;
        }
        let ghost pre = blocks@;
        let ghost c0 = c as int;
        let ghost b0 = budget as nat;
        let cursor_block_size: i32;
        let is_file: bool;
        let fid: i32;
        match &blocks[c] {
            Block::File(f) => {
                cursor_block_size = f.size;
                fid = f.id;
                is_file = true;
            },
            Block::Empty(_) => {
                cursor_block_size = 0;
                fid = 0;
                is_file = false;
            },
        }
        if !is_file {
            proof {
                assert(second_steps(pre, c0, b0) == second_steps(pre, c0 - 1, (b0 - 1) as nat));
            }
            c -= 1;
        } else {
            let ghost f = pre[c0]->File_0;
            proof {
                assert(f == File { id: fid, size: cursor_block_size });
            }
            match find_slot_exec(&blocks, cursor_block_size, c) {
                None => {
                    proof {
                        assert(second_steps(pre, c0, b0) == second_steps(
                            pre,
                            c0 - 1,
                            (b0 - 1) as nat,
                        ));
                    }
                    c -= 1;
                },
                Some(idx) => {
                    proof {
                        assert(pre[idx as int] is Empty && pre[c0] is File);
                        assert(idx != c);
                    }
                    let e_size: i32;
                    match &blocks[idx] {
                        Block::Empty(e) => {
                            e_size = e.size;
                        },
                        Block::File(_) => {
                            e_size = 0;
                        },
                    }
                    blocks[c] = Block::Empty(Empty { size: cursor_block_size });
                    blocks[idx] = Block::File(File { id: fid, size: cursor_block_size });
                    let ghost moved = pre.update(c0, Block::Empty(Empty { size: f.size })).update(
                        idx as int,
                        Block::File(f),
                    );
                    proof {
                        assert(blocks@ =~= moved);
                    }
                    if e_size == cursor_block_size {
                        proof {
                            assert(second_steps(pre, c0, b0) == second_steps(
                                moved,
                                c0 - 1,
                                (b0 - 1) as nat,
                            ));
                        }
                        c -= 1;
                    } else {
                        let rem: i32 = #[verifier::truncate] ((e_size as i64 - cursor_block_size
                            as i64) as i32);
                        blocks.insert(idx + 1, Block::Empty(Empty { size: rem }));
                        proof {
                            assert(rem == #[verifier::truncate] ((e_size - f.size) as i32));
                            assert(blocks@ == moved.insert(
                                idx + 1,
                                Block::Empty(Empty { size: (e_size - f.size) as i32 }),
                            ));
                            assert(second_steps(pre, c0, b0) == second_steps(
                                blocks@,
                                c0,
                                (b0 - 1) as nat,
                            ));
                        }
                    }
                },
            }
        }
        budget -= 1;
    }
    proof {
        assert(second_steps(blocks@, c as int, budget as nat) == Some(blocks@));
    }
    Some(blocks)
}

/// A valid disk map: digits only, and few enough blocks for their ids.
pub open spec fn input_ok(s: Seq<u8>) -> bool {
    &&& scan::all_digits(s)
    &&& 1 <= s.len() <= 0x3fff_fffe
    &&& spec_disk(spec_blocks(s, s.len() as int)).len() >= 1
}

/// Both answers for one input: the checksum after cell-by-cell
/// compaction, and after whole-file compaction.  None when the input is
/// not a digit map, the unpacked disk is empty, a checksum leaves the
/// i64 range, or the compaction budget runs out.
pub fn run(input: &[u8]) -> (out: Option<(i64, i64)>)
    ensures
        ({
            let blocks = spec_blocks(input@, input@.len() as int);
            let disk1 = spec_compact(spec_disk(blocks), 0, spec_disk(blocks).len() - 1);
            match out {
                Some(ans) => {
                    &&& input_ok(input@)
                    &&& ans.0 == spec_checksum(disk1, disk1.len() as int)
                    &&& match second_steps(blocks, blocks.len() - 1, second_budget(blocks)) {
                        Some(fixed) => ans.1 == spec_checksum(
                            spec_disk(fixed),
                            spec_disk(fixed).len() as int,
                        ),
                        None => false,
                    }
                },
                None => {
                    ||| !input_ok(input@)
                    ||| second_steps(blocks, blocks.len() - 1, second_budget(blocks)) is None
                    ||| exists|k: int|
                        0 <= k <= disk1.len() && !(i64::MIN <= #[trigger] spec_checksum(disk1, k)
                            <= i64::MAX)
                    ||| match second_steps(blocks, blocks.len() - 1, second_budget(blocks)) {
                        Some(fixed) => exists|k: int|
                            0 <= k <= spec_disk(fixed).len() && !(i64::MIN
                                <= #[trigger] spec_checksum(spec_disk(fixed), k) <= i64::MAX),
                        None => true,
                    }
                },
            }
        }),
{
    let n = input.len();
    if n == 0 || n > 1073741822usize {
        return None;
    }
    let mut i: usize = 0;
    while i < n
        invariant
            i <= n,
            n == input@.len(),
            forall|x: int| 0 <= x < i ==> scan::is_digit(#[trigger] input@[x]),
        decreases n - i,
    {
        let b = input[i];
        if b < 48 || b > 57 {
            return None;
        }
        i += 1;
    }
    let blocks = parse(input);
    let mut disk = build_disk(&blocks);
    if disk.len() == 0 {
        return None;
    }
    compact_disk(&mut disk);
    let a = match checksum(&disk) {
        Some(v) => v,
        None => {
            return None;
        },
    };
    let blocks2 = parse(input);
    proof {
        lemma_spec_blocks_len(input@, input@.len() as int);
    }
    let fixed = match compact_files(blocks2) {
        Some(v) => v,
        None => {
            proof {
                assert(blocks2@ == spec_blocks(input@, input@.len() as int));
                assert(second_steps(
                    spec_blocks(input@, input@.len() as int),
                    spec_blocks(input@, input@.len() as int).len() - 1,
                    second_budget(spec_blocks(input@, input@.len() as int)),
                ) is None);
            }
            return None;
        },
    };
    let disk2 = build_disk(&fixed);
    let b = match checksum(&disk2) {
        Some(v) => v,
        None => {
            proof {
                let gblocks = spec_blocks(input@, input@.len() as int);
                assert(second_steps(gblocks, gblocks.len() - 1, second_budget(gblocks)) == Some(
                    fixed@,
                ));
                assert(disk2@ == spec_disk(fixed@));
                let k0 = choose|k: int|
                    0 <= k <= disk2@.len() && !(i64::MIN <= #[trigger] spec_checksum(disk2@, k)
                        <= i64::MAX);
                assert(!(i64::MIN <= spec_checksum(spec_disk(fixed@), k0) <= i64::MAX));
                assert(0 <= k0 <= spec_disk(fixed@).len());
                let fx = second_steps(gblocks, gblocks.len() - 1, second_budget(gblocks))->Some_0;
                assert(fx == fixed@);
                assert(0 <= k0 <= spec_disk(fx).len() && !(i64::MIN <= spec_checksum(
                    spec_disk(fx),
                    k0,
                ) <= i64::MAX));
            }
            return None;
        },
    };
    proof {
        let gblocks = spec_blocks(input@, input@.len() as int);
        assert(second_steps(gblocks, gblocks.len() - 1, second_budget(gblocks)) == Some(fixed@));
        assert(disk2@ == spec_disk(fixed@));
    }
    Some((a, b))
}

} // verus!
