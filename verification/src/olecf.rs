//! Parser for the compound-file binary layout: header, FAT and mini-FAT
//! sector chains, directory entries, and stream reads. Rule modules expose
//! what it decodes to rule conditions.

use vstd::prelude::*;
use crate::bytes::{parse_u16_at, parse_u32_at, spec_u16_at, spec_u32_at, lossy_of, utf8_lossy};
use vstd::set_lib::lemma_len_subset;
use vstd::set_lib::set_int_range;

verus! {

/// Sentinel FAT value terminating a chain.
pub const ENDOFCHAIN: u32 = 0xFFFFFFFE;

/// Sector numbers above this value are reserved, not regular data sectors.
pub const MAX_REGULAR_SECTOR: u32 = 0xFFFFFFFA;

/// Size in bytes of a regular sector.
pub const SECTOR_SIZE: usize = 512;

/// Size in bytes of a mini sector.
pub const MINI_SECTOR_SIZE: usize = 64;

/// Size in bytes of a directory entry.
pub const DIRECTORY_ENTRY_SIZE: usize = 128;

/// Directory entry type: storage.
pub const STORAGE_TYPE: u8 = 1;

/// Directory entry type: stream.
pub const STREAM_TYPE: u8 = 2;

/// Directory entry type: root storage.
pub const ROOT_STORAGE_TYPE: u8 = 5;

/// The 8-byte signature that a compound file starts with.
pub open spec fn spec_signature() -> Seq<u8> {
    seq![0xd0u8, 0xcfu8, 0x11u8, 0xe0u8, 0xa1u8, 0xb1u8, 0x1au8, 0xe1u8]
}

/// A parsed directory entry.
#[derive(Debug, Clone, PartialEq, Eq)]
pub struct DirectoryEntry {
    /// The entry's name, lossily decoded from its name bytes.
    pub name: String,
    /// The stream size in bytes.
    pub size: u64,
    /// The first sector of the entry's chain.
    pub start_sector: u32,
    /// The entry type byte: storage, stream or root storage.
    pub stream_type: u8,
}

/// The mathematical value of a directory entry.
pub ghost struct DirectoryEntryV {
    pub name: Seq<char>,
    pub size: u64,
    pub start_sector: u32,
    pub stream_type: u8,
}

impl View for DirectoryEntry {
    type V = DirectoryEntryV;

    open spec fn view(&self) -> DirectoryEntryV {
        DirectoryEntryV {
            name: self.name@,
            size: self.size,
            start_sector: self.start_sector,
            stream_type: self.stream_type,
        }
    }
}

/// Whether the buffer starts with the compound-file signature.
pub open spec fn spec_sig_ok(data: Seq<u8>) -> bool {
    data.len() >= 8 && data.subrange(0, 8) == spec_signature()
}

/// Whether the fixed part of the header parses: signature and byte-order
/// mark are right and the fixed fields are present.
pub open spec fn spec_header_ok(data: Seq<u8>) -> bool {
    &&& data.len() >= 76
    &&& spec_sig_ok(data)
    &&& spec_u16_at(data, 28) == 0xFFFEu16
}

/// How many DIFAT slots of the header's 109 are present in the buffer.
pub open spec fn spec_difat_count(data: Seq<u8>) -> int {
    if data.len() < 76 {
        0
    } else if (data.len() - 76) / 4 < 109 {
        (data.len() - 76) / 4
    } else {
        109
    }
}

/// The FAT-sector pointers among the first `n` DIFAT slots: slot values
/// below `MAX_REGULAR_SECTOR`, in slot order.
pub open spec fn spec_fat_sectors_upto(data: Seq<u8>, n: int) -> Seq<u32>
    decreases n,
{
    if n <= 0 {
        Seq::empty()
    } else {
        let v = spec_u32_at(data, 76 + 4 * (n - 1));
        if v < MAX_REGULAR_SECTOR {
            spec_fat_sectors_upto(data, n - 1) + seq![v]
        } else {
            spec_fat_sectors_upto(data, n - 1)
        }
    }
}

/// The FAT-sector pointers the header's DIFAT declares.
pub open spec fn spec_fat_sectors(data: Seq<u8>) -> Seq<u32> {
    spec_fat_sectors_upto(data, spec_difat_count(data))
}

/// Byte offset of a sector: the first sector begins at offset 512.
pub open spec fn spec_sector_offset(sector: u32) -> int {
    512 + sector * 512
}

/// Whether a whole sector lies within the buffer.
pub open spec fn spec_sector_in_bounds(data: Seq<u8>, sector: u32) -> bool {
    spec_sector_offset(sector) + 512 <= data.len()
}

/// The bytes of a sector.
pub open spec fn spec_sector_bytes(data: Seq<u8>, sector: u32) -> Seq<u8> {
    data.subrange(spec_sector_offset(sector), spec_sector_offset(sector) + 512)
}

/// The FAT entry for `sector`: entry `sector % 128` of FAT sector
/// `sector / 128`, read little-endian. `None` when the FAT-sector index is
/// out of range or the FAT sector lies outside the buffer.
pub open spec fn spec_fat_entry(data: Seq<u8>, fats: Seq<u32>, sector: u32) -> Option<u32> {
    let idx = sector as int / 128;
    if idx >= fats.len() {
        None
    } else if !spec_sector_in_bounds(data, fats[idx]) {
        None
    } else {
        Some(spec_u32_at(data, spec_sector_offset(fats[idx]) + (sector as int % 128) * 4))
    }
}

/// Index of the entry with the given name, or -1 when absent.
pub open spec fn spec_find_name(s: Seq<DirectoryEntryV>, name: Seq<char>) -> int
    decreases s.len(),
{
    if s.len() == 0 {
        -1
    } else if s[0].name == name {
        0
    } else {
        let r = spec_find_name(s.drop_first(), name);
        if r < 0 {
            -1
        } else {
            r + 1
        }
    }
}

/// The mini-FAT entry for mini sector `ms`. An empty mini-FAT or an index
/// past its sectors reads as end-of-chain; a mini-FAT sector outside the
/// buffer is a read failure.
pub open spec fn spec_minifat_entry(data: Seq<u8>, minifats: Seq<u32>, ms: u32) -> Option<u32> {
    if minifats.len() == 0 {
        Some(ENDOFCHAIN)
    } else {
        let idx = ms as int / 128;
        if idx >= minifats.len() {
            Some(ENDOFCHAIN)
        } else if !spec_sector_in_bounds(data, minifats[idx]) {
            None
        } else {
            Some(spec_u32_at(data, spec_sector_offset(minifats[idx]) + (ms as int % 128) * 4))
        }
    }
}

/// The bytes gathered by walking the FAT chain from `current`, reading
/// whole sectors and stopping once `remaining` bytes are gathered or the
/// chain ends. `None` is a failed sector or FAT read.
pub open spec fn spec_read_chain(data: Seq<u8>, fats: Seq<u32>, current: u32, remaining: nat) -> Option<
    Seq<u8>,
>
    decreases remaining,
{
    if remaining == 0 {
        Some(Seq::empty())
    } else if current >= MAX_REGULAR_SECTOR {
        Some(Seq::empty())
    } else if !spec_sector_in_bounds(data, current) {
        None
    } else {
        let take_n: int = if remaining < 512 {
            remaining as int
        } else {
            512
        };
        let chunk = spec_sector_bytes(data, current).take(take_n);
        if remaining <= 512 {
            Some(chunk)
        } else {
            match spec_fat_entry(data, fats, current) {
                None => None,
                Some(n) => if n == ENDOFCHAIN || n >= MAX_REGULAR_SECTOR {
                    Some(chunk)
                } else {
                    match spec_read_chain(data, fats, n, (remaining - 512) as nat) {
                        None => None,
                        Some(rest) => Some(chunk + rest),
                    }
                },
            }
        }
    }
}

/// The bytes gathered by walking the mini-FAT from mini sector `current`
/// through the mini stream `mini`, in 64-byte mini sectors. `None` is an
/// offset outside the mini stream or a failed mini-FAT read.
pub open spec fn spec_read_mini(
    data: Seq<u8>,
    minifats: Seq<u32>,
    mini: Seq<u8>,
    current: u32,
    remaining: nat,
) -> Option<Seq<u8>>
    decreases remaining,
{
    if remaining == 0 {
        Some(Seq::empty())
    } else if current >= MAX_REGULAR_SECTOR {
        Some(Seq::empty())
    } else {
        let mo = current * 64;
        if mo >= mini.len() {
            None
        } else {
            let take_n: int = if remaining < 64 {
                remaining as int
            } else {
                64
            };
            if mo + take_n > mini.len() {
                None
            } else {
                let chunk = mini.subrange(mo as int, mo + take_n);
                if remaining <= 64 {
                    Some(chunk)
                } else {
                    match spec_minifat_entry(data, minifats, current) {
                        None => None,
                        Some(n) => if n == ENDOFCHAIN || n >= MAX_REGULAR_SECTOR {
                            Some(chunk)
                        } else {
                            match spec_read_mini(data, minifats, mini, n, (remaining - 64) as nat) {
                                None => None,
                                Some(rest) => Some(chunk + rest),
                            }
                        },
                    }
                }
            }
        }
    }
}

/// A whole regular-chain stream read: the gathered bytes when they amount
/// to exactly `size`, else nothing (a short read).
pub open spec fn spec_regular_result(data: Seq<u8>, fats: Seq<u32>, start: u32, size: u64) -> Option<
    Seq<u8>,
> {
    match spec_read_chain(data, fats, start, size as nat) {
        None => None,
        Some(b) => if b.len() == size {
            Some(b)
        } else {
            None
        },
    }
}

/// What a finished chain's last element points at: nothing readable, a
/// reserved sector, or a sector already in the chain (a cycle).
pub open spec fn spec_chain_ends(data: Seq<u8>, fats: Seq<u32>, s: Seq<u32>) -> bool {
    match spec_fat_entry(data, fats, s.last()) {
        None => true,
        Some(n) => n > MAX_REGULAR_SECTOR || s.contains(n),
    }
}

/// `s` is the FAT chain walked from `start`: its sectors are distinct and
/// regular, it starts at `start` (and is empty exactly when `start` is
/// reserved), each sector's FAT entry names the next, and it stops only at
/// a reserved value, a failed lookup, or a sector already walked. These
/// clauses determine the chain uniquely for a given buffer and FAT.
pub open spec fn spec_is_chain(data: Seq<u8>, fats: Seq<u32>, start: u32, s: Seq<u32>) -> bool {
    &&& s.no_duplicates()
    &&& forall|i: int| 0 <= i < s.len() ==> (#[trigger] s[i]) <= MAX_REGULAR_SECTOR
    &&& (start > MAX_REGULAR_SECTOR ==> s.len() == 0)
    &&& (start <= MAX_REGULAR_SECTOR ==> s.len() >= 1 && s[0] == start)
    &&& forall|i: int|
        0 <= i < s.len() - 1 ==> spec_fat_entry(data, fats, #[trigger] s[i]) == Some(s[i + 1])
    &&& (s.len() >= 1 ==> spec_chain_ends(data, fats, s))
}

/// The fixed part of the header passes, the directory chain starts at a
/// regular sector, and the DIFAT is consistent with the declared FAT-sector
/// count: exactly the inputs the constructor accepts.
pub open spec fn spec_header_accepts(data: Seq<u8>) -> bool {
    &&& spec_header_ok(data)
    &&& spec_u32_at(data, 48) < MAX_REGULAR_SECTOR
    &&& !(spec_fat_sectors(data).len() == 0 && spec_u32_at(data, 44) > 0)
}

/// The non-zero bytes of the name field of the directory entry at `offset`.
pub open spec fn spec_name_bytes(data: Seq<u8>, offset: int) -> Seq<u8> {
    data.subrange(offset, offset + spec_u16_at(data, offset + 64) as int).filter(
        |b: u8| b != 0,
    )
}

/// The rolling state of the directory walk: the entries recorded so far
/// and the mini stream's source captured from root-storage entries.
pub ghost struct DirWalk {
    pub entries: Seq<DirectoryEntryV>,
    pub mini_start: u32,
    pub mini_size: u64,
}

/// The directory entry decoded at `off`, when its 128 bytes are present
/// and its name length lies in 2 ..= 64 bytes.
pub open spec fn spec_dir_entry(data: Seq<u8>, off: int) -> Option<DirectoryEntryV> {
    if off + 128 <= data.len() && 2 <= spec_u16_at(data, off + 64) <= 64 {
        Some(
            DirectoryEntryV {
                name: lossy_of(spec_name_bytes(data, off)),
                size: spec_u32_at(data, off + 120) as u64,
                start_sector: spec_u32_at(data, off + 116),
                stream_type: data[off + 66],
            },
        )
    } else {
        None
    }
}

/// Recording one entry in the name-keyed table: last write wins per name.
pub open spec fn spec_insert_entry(entries: Seq<DirectoryEntryV>, e: DirectoryEntryV) -> Seq<
    DirectoryEntryV,
> {
    let f = spec_find_name(entries, e.name);
    if f >= 0 {
        entries.update(f, e)
    } else {
        entries.push(e)
    }
}

/// One slot's effect on the walk: a root-storage entry supplies the mini
/// stream's start sector and size; storage, stream and root-storage
/// entries are recorded; a rejected or alien entry changes nothing.
pub open spec fn spec_walk_entry(data: Seq<u8>, w: DirWalk, off: int) -> DirWalk {
    match spec_dir_entry(data, off) {
        Some(e) => {
            let w1 = if e.stream_type == ROOT_STORAGE_TYPE {
                DirWalk { entries: w.entries, mini_start: e.start_sector, mini_size: e.size }
            } else {
                w
            };
            if e.stream_type == STORAGE_TYPE || e.stream_type == STREAM_TYPE || e.stream_type
                == ROOT_STORAGE_TYPE {
                DirWalk {
                    entries: spec_insert_entry(w1.entries, e),
                    mini_start: w1.mini_start,
                    mini_size: w1.mini_size,
                }
            } else {
                w1
            }
        },
        None => w,
    }
}

/// Walks one directory sector's four 128-byte slots from `slot` on,
/// stopping at the first slot whose bytes run past the buffer.
pub open spec fn spec_walk_sector(data: Seq<u8>, w: DirWalk, sector: u32, slot: int) -> DirWalk
    decreases 4 - slot,
{
    if slot < 0 || slot >= 4 {
        w
    } else {
        let off = spec_sector_offset(sector) + slot * 128;
        if off + 128 > data.len() {
            w
        } else {
            spec_walk_sector(data, spec_walk_entry(data, w, off), sector, slot + 1)
        }
    }
}

/// Walks the directory sectors from index `i` on, in chain order.
pub open spec fn spec_walk_dirs(data: Seq<u8>, dirs: Seq<u32>, w: DirWalk, i: int) -> DirWalk
    decreases dirs.len() - i,
{
    if i < 0 || i >= dirs.len() {
        w
    } else {
        spec_walk_dirs(data, dirs, spec_walk_sector(data, w, dirs[i], 0), i + 1)
    }
}

/// `spec_find_name` reports the first position holding `name`, or -1 when
/// no position does.
pub proof fn lemma_find_name_props(s: Seq<DirectoryEntryV>, name: Seq<char>)
    ensures
        (spec_find_name(s, name) == -1) <==> (forall|j: int|
            0 <= j < s.len() ==> (#[trigger] s[j]).name != name),
        spec_find_name(s, name) != -1 ==> {
            let f = spec_find_name(s, name);
            &&& 0 <= f < s.len()
            &&& s[f].name == name
            &&& forall|j: int| 0 <= j < f ==> (#[trigger] s[j]).name != name
        },
    decreases s.len(),
{
    if s.len() == 0 {
    } else if s[0].name == name {
    } else {
        lemma_find_name_props(s.drop_first(), name);
        assert forall|j: int| 1 <= j < s.len() implies s.drop_first()[j - 1] == s[j] by {}
    }
}

/// A sequence of distinct `u32` values bounded by `bound` has at most
/// `bound + 1` elements.
proof fn lemma_distinct_bounded_u32(s: Seq<u32>, bound: u32)
    requires
        s.no_duplicates(),
        forall|i: int| 0 <= i < s.len() ==> s[i] <= bound,
    ensures
        s.len() <= bound + 1,
{
    let f = |v: u32| v as int;
    let ints = s.map_values(f);
    assert(vstd::relations::injective(f)) by {
        assert(forall|x: u32, y: u32| #[trigger] f(x) == #[trigger] f(y) ==> x == y);
    }
    s.lemma_no_duplicates_injective(f);
    ints.unique_seq_to_set();
    let range = set_int_range(0, bound + 1);
    assert(ints.to_set().subset_of(range)) by {
        assert forall|x: int| ints.to_set().contains(x) implies range.contains(x) by {
            let i = choose|i: int| 0 <= i < ints.len() && ints[i] == x;
            assert(s[i] <= bound);
        }
    }
    vstd::set_lib::lemma_int_range(0, bound + 1);
    lemma_len_subset(ints.to_set(), range);
}

/// A linked chain can hold at most one sector per FAT entry the buffer
/// can address, plus the final sector whose lookup ended the walk: its
/// length is at most `128 * |FAT sectors| + 1`.
proof fn lemma_chain_len_bound(data: Seq<u8>, fats: Seq<u32>, s: Seq<u32>)
    requires
        s.no_duplicates(),
        forall|i: int| 0 <= i < s.len() ==> (#[trigger] s[i]) <= MAX_REGULAR_SECTOR,
        forall|i: int|
            0 <= i < s.len() - 1 ==> spec_fat_entry(data, fats, #[trigger] s[i]) == Some(
                s[i + 1],
            ),
    ensures
        s.len() <= 128 * fats.len() + 1,
{
    if s.len() >= 2 {
        let head = s.take(s.len() - 1);
        assert(head.no_duplicates());
        assert forall|i: int| 0 <= i < head.len() implies ((#[trigger] head[i]) as int) < 128
            * fats.len() by {
            assert(head[i] == s[i]);
            assert(spec_fat_entry(data, fats, s[i]) is Some);
            assert(s[i] as int / 128 < fats.len());
        }
        assert(head.len() >= 1);
        assert((head[0] as int) < 128 * fats.len());
        assert(fats.len() >= 1);
        if 128 * fats.len() >= MAX_REGULAR_SECTOR as int + 1 {
            lemma_distinct_bounded_u32(s, MAX_REGULAR_SECTOR);
        } else {
            let bound = (128 * fats.len() - 1) as u32;
            assert forall|i: int| 0 <= i < head.len() implies (#[trigger] head[i])
                <= bound by {
                assert((head[i] as int) < 128 * fats.len());
            }
            lemma_distinct_bounded_u32(head, bound);
        }
    }
}

/// True exactly when `x` occurs in `v`.
fn contains_u32(v: &Vec<u32>, x: u32) -> (r: bool)
    ensures
        r == v@.contains(x),
{
    let n = v.len();
    for i in 0..n
        invariant
            n == v@.len(),
            forall|j: int| 0 <= j < i ==> v@[j] != x,
    {
        if v[i] == x {
            return true;
        }
    }
    false
}

/// Parser over one compound-file buffer.
pub struct OLECFParser<'a> {
    data: &'a [u8],
    sector_size: usize,
    mini_sector_size: usize,
    fat_sectors: Vec<u32>,
    directory_sectors: Vec<u32>,
    mini_fat_sectors: Vec<u32>,
    dir_entries: Vec<DirectoryEntry>,
    mini_stream_start: u32,
    mini_stream_size: u64,
}

impl<'a> OLECFParser<'a> {
    /// The scanned buffer.
    pub closed spec fn spec_data(self) -> Seq<u8> {
        self.data@
    }

    /// The FAT sectors gathered from the header's DIFAT.
    pub closed spec fn spec_fats(self) -> Seq<u32> {
        self.fat_sectors@
    }

    /// The directory sector chain.
    pub closed spec fn spec_dirs(self) -> Seq<u32> {
        self.directory_sectors@
    }

    /// The mini-FAT sector chain.
    pub closed spec fn spec_minifats(self) -> Seq<u32> {
        self.mini_fat_sectors@
    }

    /// The directory entries, in insertion order, names unique.
    pub closed spec fn entries(self) -> Seq<DirectoryEntryV> {
        self.dir_entries@.map(|i: int, e: DirectoryEntry| e@)
    }

    /// First sector of the mini stream's backing chain (from the root
    /// storage entry).
    pub closed spec fn spec_mini_start(self) -> u32 {
        self.mini_stream_start
    }

    /// Size of the mini stream (from the root storage entry).
    pub closed spec fn spec_mini_size(self) -> u64 {
        self.mini_stream_size
    }

    /// Well-formedness: the sector sizes are the layout's constants and
    /// directory entry names are unique.
    pub closed spec fn wf(self) -> bool {
        &&& self.sector_size == SECTOR_SIZE
        &&& self.mini_sector_size == MINI_SECTOR_SIZE
        &&& forall|i: int, j: int|
            0 <= i < j < self.entries().len() ==> (#[trigger] self.entries()[i]).name != (
            #[trigger] self.entries()[j]).name
    }

    /// Byte offset where a sector starts.
    fn sector_to_offset(&self, sector: u32) -> (r: u64)
        ensures
            r == spec_sector_offset(sector),
    {
        512u64 + (sector as u64) * 512u64
    }

    /// Reads one whole sector, or fails when it lies outside the buffer.
    fn read_sector(&self, sector: u32) -> (r: Result<&[u8], &'static str>)
        requires
            self.wf(),
        ensures
            r is Ok <==> spec_sector_in_bounds(self.spec_data(), sector),
            r is Ok ==> r->Ok_0@ == spec_sector_bytes(self.spec_data(), sector),
    {
        let off64 = self.sector_to_offset(sector);
        let dlen = self.data.len();
        if off64 > (dlen as u64) || (dlen as u64) - off64 < self.sector_size as u64 {
            return Err("Sector read out of bounds");
        }
        let off = off64 as usize;
        Ok(&self.data[off..off + self.sector_size])
    }

    /// Looks up the FAT entry for `sector`: entry `sector % 128` of FAT
    /// sector `sector / 128`, read little-endian.
    fn get_fat_entry(&self, sector: u32) -> (r: Result<u32, &'static str>)
        requires
            self.wf(),
        ensures
            r is Ok <==> spec_fat_entry(self.spec_data(), self.spec_fats(), sector) is Some,
            r is Ok ==> Some(r->Ok_0) == spec_fat_entry(self.spec_data(), self.spec_fats(), sector),
    {
        let entry_index = sector as usize;
        let entries_per_sector = self.sector_size / 4;
        let fat_sector_index = entry_index / entries_per_sector;
        if fat_sector_index >= self.fat_sectors.len() {
            return Err("FAT entry sector index out of range");
        }
        let fat_sector = self.fat_sectors[fat_sector_index];
        let fat = match self.read_sector(fat_sector) {
            Ok(f) => f,
            Err(e) => {
                return Err(e);
            },
        };
        let fat_entry_offset = (entry_index % entries_per_sector) * 4;
        proof {
            assert(sector as int / 128 == fat_sector_index as int);
            assert(sector as int % 128 == entry_index as int % 128);
            assert(fat_entry_offset + 4 <= 512);
        }
        let r = parse_u32_at(fat, fat_entry_offset);
        proof {
            let data = self.spec_data();
            let soff = spec_sector_offset(fat_sector);
            assert(fat@[fat_entry_offset as int] == data[soff + fat_entry_offset]);
            assert(fat@[fat_entry_offset + 1] == data[soff + fat_entry_offset + 1]);
            assert(fat@[fat_entry_offset + 2] == data[soff + fat_entry_offset + 2]);
            assert(fat@[fat_entry_offset + 3] == data[soff + fat_entry_offset + 3]);
        }
        r
    }

    /// Follows a FAT chain from `start_sector`.
    ///
    /// The returned sectors are distinct and regular; each one's FAT entry
    /// names the next; the walk stops at a reserved value (end-of-chain
    /// included), at a FAT lookup failure, or when the entry points back
    /// into the chain (a cycle). Distinctness bounds the chain's length by
    /// the whole sector space.
    pub fn follow_chain(&self, start_sector: u32) -> (r: Vec<u32>)
        requires
            self.wf(),
        ensures
            r@.no_duplicates(),
            forall|i: int| 0 <= i < r@.len() ==> r@[i] <= MAX_REGULAR_SECTOR,
            start_sector > MAX_REGULAR_SECTOR ==> r@.len() == 0,
            start_sector <= MAX_REGULAR_SECTOR ==> r@.len() >= 1 && r@[0] == start_sector,
            forall|i: int|
                0 <= i < r@.len() - 1 ==> spec_fat_entry(self.spec_data(), self.spec_fats(), r@[i])
                    == Some(r@[i + 1]),
            r@.len() >= 1 ==> spec_chain_ends(self.spec_data(), self.spec_fats(), r@),
            spec_is_chain(self.spec_data(), self.spec_fats(), start_sector, r@),
            r@.len() <= MAX_REGULAR_SECTOR + 1,
            r@.len() <= 128 * self.spec_fats().len() + 1,
    {
        let mut chain: Vec<u32> = Vec::new();
        let mut current = start_sector;
        loop
            invariant
                self.wf(),
                chain@.no_duplicates(),
                forall|i: int| 0 <= i < chain@.len() ==> chain@[i] <= MAX_REGULAR_SECTOR,
                chain@.len() == 0 ==> current == start_sector,
                start_sector <= MAX_REGULAR_SECTOR && chain@.len() >= 1 ==> chain@[0]
                    == start_sector,
                start_sector > MAX_REGULAR_SECTOR ==> chain@.len() == 0,
                forall|i: int|
                    0 <= i < chain@.len() - 1 ==> spec_fat_entry(
                        self.spec_data(),
                        self.spec_fats(),
                        chain@[i],
                    ) == Some(chain@[i + 1]),
                chain@.len() >= 1 ==> spec_fat_entry(
                    self.spec_data(),
                    self.spec_fats(),
                    chain@.last(),
                ) == Some(current),
                chain@.len() <= MAX_REGULAR_SECTOR + 1,
            decreases MAX_REGULAR_SECTOR + 2 - chain@.len(),
        {
            if current > MAX_REGULAR_SECTOR {
                proof {
                    lemma_chain_len_bound(self.spec_data(), self.spec_fats(), chain@);
                }
                return chain;
            }
            if contains_u32(&chain, current) {
                assert(chain@.len() >= 1);
                proof {
                    lemma_chain_len_bound(self.spec_data(), self.spec_fats(), chain@);
                }
                return chain;
            }
            chain.push(current);
            proof {
                lemma_distinct_bounded_u32(chain@, MAX_REGULAR_SECTOR);
            }
            match self.get_fat_entry(current) {
                Err(_) => {
                    proof {
                        lemma_chain_len_bound(self.spec_data(), self.spec_fats(), chain@);
                    }
                    return chain;
                },
                Ok(n) => {
                    if n == ENDOFCHAIN {
                        proof {
                            lemma_chain_len_bound(self.spec_data(), self.spec_fats(), chain@);
                        }
                        return chain;
                    }
                    current = n;
                },
            }
        }
    }

    /// Reads the 128-byte directory entry at `offset`. An entry whose name
    /// length lies outside 2 ..= 64 bytes is rejected. Name bytes equal to
    /// zero are dropped and the rest decoded lossily.
    fn read_directory_entry(&self, offset: usize) -> (r: Result<DirectoryEntry, &'static str>)
        requires
            self.wf(),
        ensures
            r is Ok <==> (offset + 128 <= self.spec_data().len() && 2 <= spec_u16_at(
                self.spec_data(),
                offset as int + 64,
            ) <= 64),
            r is Ok ==> {
                let data = self.spec_data();
                let e = r->Ok_0@;
                &&& e.name == lossy_of(spec_name_bytes(data, offset as int))
                &&& e.size == spec_u32_at(data, offset as int + 120) as u64
                &&& e.start_sector == spec_u32_at(data, offset as int + 116)
                &&& e.stream_type == data[offset as int + 66]
            },
    {
        let dlen = self.data.len();
        if offset > dlen || dlen - offset < 128 {
            return Err("Incomplete directory entry");
        }
        let name_len = match parse_u16_at(self.data, offset + 64) {
            Ok(v) => v,
            Err(e) => {
                return Err(e);
            },
        };
        if name_len < 2 || name_len > 64 {
            return Err("Invalid name length");
        }
        let nlen = name_len as usize;
        let mut filtered: Vec<u8> = Vec::new();
        proof {
            reveal(Seq::filter);
            assert(self.spec_data().subrange(offset as int, offset as int) =~= Seq::<u8>::empty());
            assert(filtered@ =~= self.spec_data().subrange(offset as int, offset as int).filter(
                |b: u8| b != 0,
            ));
        }
        for i in 0..nlen
            invariant
                self.wf(),
                dlen == self.spec_data().len(),
                offset + nlen <= dlen,
                filtered@ == self.spec_data().subrange(offset as int, offset as int + i).filter(
                    |b: u8| b != 0,
                ),
        {
            let b = self.data[offset + i];
            proof {
                reveal(Seq::filter);
                let pre = self.spec_data().subrange(offset as int, offset as int + i);
                let post = self.spec_data().subrange(offset as int, offset as int + i + 1);
                assert(post.drop_last() =~= pre);
                assert(post.last() == b);
            }
            if b != 0 {
                filtered.push(b);
            }
        }
        let name = utf8_lossy(filtered.as_slice());
        let stream_type = self.data[offset + 66];
        let start_sector = match parse_u32_at(self.data, offset + 116) {
            Ok(v) => v,
            Err(e) => {
                return Err(e);
            },
        };
        let size_32 = match parse_u32_at(self.data, offset + 120) {
            Ok(v) => v,
            Err(e) => {
                return Err(e);
            },
        };
        let size = size_32 as u64;
        Ok(DirectoryEntry { name, size, start_sector, stream_type })
    }

    /// Inserts a directory entry into the name-keyed table; an entry with
    /// the same name is overwritten (last write wins).
    fn insert_entry(&mut self, e: DirectoryEntry)
        requires
            old(self).wf(),
        ensures
            final(self).wf(),
            final(self).spec_data() == old(self).spec_data(),
            final(self).spec_fats() == old(self).spec_fats(),
            final(self).spec_dirs() == old(self).spec_dirs(),
            final(self).spec_minifats() == old(self).spec_minifats(),
            final(self).spec_mini_start() == old(self).spec_mini_start(),
            final(self).spec_mini_size() == old(self).spec_mini_size(),
            final(self).entries() == {
                let f = spec_find_name(old(self).entries(), e@.name);
                if f >= 0 {
                    old(self).entries().update(f, e@)
                } else {
                    old(self).entries().push(e@)
                }
            },
    {
        proof {
            lemma_find_name_props(self.entries(), e@.name);
        }
        let n = self.dir_entries.len();
        for i in 0..n
            invariant
                *self == *old(self),
                self.wf(),
                n == self.entries().len(),
                forall|j: int| 0 <= j < i ==> (#[trigger] self.entries()[j]).name != e@.name,
        {
            let same = self.dir_entries[i].name == e.name;
            if same {
                proof {
                    lemma_find_name_props(self.entries(), e@.name);
                    assert(self.entries()[i as int].name == e@.name);
                }
                self.dir_entries.set(i, e);
                proof {
                    assert(self.entries() =~= old(self).entries().update(i as int, e@));
                }
                return;
            }
        }
        proof {
            lemma_find_name_props(self.entries(), e@.name);
        }
        self.dir_entries.push(e);
        proof {
            assert(self.entries() =~= old(self).entries().push(e@));
        }
    }

    /// Parses the 512-byte compound-file header: checks the signature and
    /// byte-order mark, gathers the FAT sectors the DIFAT names, and follows
    /// the directory and mini-FAT chains.
    fn parse_header(&mut self) -> (r: Result<(), &'static str>)
        requires
            old(self).wf(),
        ensures
            final(self).wf(),
            final(self).spec_data() == old(self).spec_data(),
            final(self).entries() == old(self).entries(),
            final(self).spec_mini_start() == old(self).spec_mini_start(),
            final(self).spec_mini_size() == old(self).spec_mini_size(),
            r is Ok <==> spec_header_accepts(old(self).spec_data()),
            r is Ok ==> final(self).spec_fats() == spec_fat_sectors(old(self).spec_data()),
            r is Ok ==> final(self).spec_dirs().len() >= 1,
            r is Ok ==> spec_is_chain(
                old(self).spec_data(),
                spec_fat_sectors(old(self).spec_data()),
                spec_u32_at(old(self).spec_data(), 48),
                final(self).spec_dirs(),
            ),
            r is Ok ==> {
                let data = old(self).spec_data();
                if spec_u32_at(data, 64) > 0 && spec_u32_at(data, 60) < MAX_REGULAR_SECTOR {
                    spec_is_chain(
                        data,
                        spec_fat_sectors(data),
                        spec_u32_at(data, 60),
                        final(self).spec_minifats(),
                    )
                } else {
                    final(self).spec_minifats() == old(self).spec_minifats()
                }
            },
    {
        let data = self.data;
        let dlen = data.len();
        if dlen < 76 {
            return Err("Header too short");
        }
        let sig_ok = data[0] == 0xd0 && data[1] == 0xcf && data[2] == 0x11 && data[3] == 0xe0
            && data[4] == 0xa1 && data[5] == 0xb1 && data[6] == 0x1a && data[7] == 0xe1;
        proof {
            if sig_ok {
                assert(self.spec_data().subrange(0, 8) =~= spec_signature());
            } else {
                assert(self.spec_data().subrange(0, 8) != spec_signature()) by {
                    if self.spec_data().subrange(0, 8) == spec_signature() {
                        assert(self.spec_data()[0] == 0xd0);
                        assert(self.spec_data()[1] == 0xcf);
                        assert(self.spec_data()[2] == 0x11);
                        assert(self.spec_data()[3] == 0xe0);
                        assert(self.spec_data()[4] == 0xa1);
                        assert(self.spec_data()[5] == 0xb1);
                        assert(self.spec_data()[6] == 0x1a);
                        assert(self.spec_data()[7] == 0xe1);
                    }
                }
            }
        }
        if !sig_ok {
            return Err("Bad signature");
        }
        let byte_order = match parse_u16_at(data, 28) {
            Ok(v) => v,
            Err(e) => {
                return Err(e);
            },
        };
        if byte_order != 0xFFFE {
            return Err("Bad byte order mark");
        }
        let num_fat_sectors = match parse_u32_at(data, 44) {
            Ok(v) => v,
            Err(e) => {
                return Err(e);
            },
        };
        let first_dir_sector = match parse_u32_at(data, 48) {
            Ok(v) => v,
            Err(e) => {
                return Err(e);
            },
        };
        let first_mini_fat = match parse_u32_at(data, 60) {
            Ok(v) => v,
            Err(e) => {
                return Err(e);
            },
        };
        let mini_fat_count = match parse_u32_at(data, 64) {
            Ok(v) => v,
            Err(e) => {
                return Err(e);
            },
        };
        // The 109 DIFAT slots that follow the fixed fields; the buffer may
        // end before the last one.
        let avail = (dlen - 76) / 4;
        let count = if avail < 109 {
            avail
        } else {
            109
        };
        proof {
            assert(count as int == spec_difat_count(self.spec_data()));
        }
        self.fat_sectors = Vec::new();
        proof {
            assert(self.spec_fats() =~= spec_fat_sectors_upto(self.spec_data(), 0));
            assert(self.entries() =~= old(self).entries());
            assert(self.wf());
        }
        for i in 0..count
            invariant
                self.wf(),
                self.spec_data().len() == dlen,
                count <= 109,
                count <= (dlen - 76) / 4,
                self.spec_fats() == spec_fat_sectors_upto(self.spec_data(), i as int),
                self.spec_data() == old(self).spec_data(),
                self.entries() == old(self).entries(),
                self.spec_dirs() == old(self).spec_dirs(),
                self.spec_minifats() == old(self).spec_minifats(),
                self.spec_mini_start() == old(self).spec_mini_start(),
                self.spec_mini_size() == old(self).spec_mini_size(),
        {
            let sector = match parse_u32_at(self.data, 76 + 4 * i) {
                Ok(v) => v,
                Err(_) => {
                    proof {
                        assert(76 + 4 * i + 4 <= dlen);
                    }
                    return Err("DIFAT read out of bounds");
                },
            };
            if sector < MAX_REGULAR_SECTOR {
                self.fat_sectors.push(sector);
            }
            proof {
                assert(self.spec_fats() =~= spec_fat_sectors_upto(
                    self.spec_data(),
                    i as int + 1,
                ));
            }
        }
        // Directory chain.
        if first_dir_sector < MAX_REGULAR_SECTOR {
            let chain = self.follow_chain(first_dir_sector);
            self.directory_sectors = chain;
        } else {
            return Err("Bad first directory sector");
        }
        // Mini-FAT chain.
        if mini_fat_count > 0 && first_mini_fat < MAX_REGULAR_SECTOR {
            let chain = self.follow_chain(first_mini_fat);
            self.mini_fat_sectors = chain;
        }
        // A header that declares FAT sectors must name at least one in the
        // DIFAT.
        if self.fat_sectors.len() == 0 && num_fat_sectors > 0 {
            return Err("No FAT sectors");
        }
        Ok(())
    }

    /// Walks every directory sector and records each well-formed storage,
    /// stream or root-storage entry; the root storage also supplies the
    /// mini stream's start sector and size.
    /// The directory walk's state held by a parser value.
    pub open spec fn walk_state(self) -> DirWalk {
        DirWalk {
            entries: self.entries(),
            mini_start: self.spec_mini_start(),
            mini_size: self.spec_mini_size(),
        }
    }

    fn parse_directory(&mut self) -> (r: Result<(), &'static str>)
        requires
            old(self).wf(),
        ensures
            final(self).wf(),
            final(self).spec_data() == old(self).spec_data(),
            final(self).spec_fats() == old(self).spec_fats(),
            final(self).spec_dirs() == old(self).spec_dirs(),
            final(self).spec_minifats() == old(self).spec_minifats(),
            r is Ok <==> old(self).spec_dirs().len() > 0,
            r is Ok ==> final(self).walk_state() == spec_walk_dirs(
                old(self).spec_data(),
                old(self).spec_dirs(),
                old(self).walk_state(),
                0,
            ),
            r is Err ==> final(self).walk_state() == old(self).walk_state(),
    {
        if self.directory_sectors.len() == 0 {
            return Err("No directory sectors");
        }
        let ghost data = self.spec_data();
        let ghost dirs = self.spec_dirs();
        let ghost target = spec_walk_dirs(data, dirs, self.walk_state(), 0);
        let nsec = self.directory_sectors.len();
        let dlen = self.data.len();
        for si in 0..nsec
            invariant
                self.wf(),
                nsec == self.spec_dirs().len(),
                dlen == self.spec_data().len(),
                data == self.spec_data(),
                dirs == self.spec_dirs(),
                self.spec_data() == old(self).spec_data(),
                self.spec_fats() == old(self).spec_fats(),
                self.spec_dirs() == old(self).spec_dirs(),
                self.spec_minifats() == old(self).spec_minifats(),
                target == spec_walk_dirs(data, dirs, self.walk_state(), si as int),
        {
            let sector = self.directory_sectors[si];
            let ghost w_sector = self.walk_state();
            // How many whole 128-byte slots of this sector lie inside the
            // buffer, up to the four a sector holds.
            let so64 = self.sector_to_offset(sector);
            let max_slots: usize = if so64 + 128 > dlen as u64 {
                0
            } else {
                let avail = ((dlen as u64) - so64) / 128;
                if avail < 4 {
                    avail as usize
                } else {
                    4
                }
            };
            proof {
                assert(spec_walk_dirs(data, dirs, w_sector, si as int) == spec_walk_dirs(
                    data,
                    dirs,
                    spec_walk_sector(data, w_sector, sector, 0),
                    si as int + 1,
                ));
            }
            let mut slot: usize = 0;
            while slot < max_slots
                invariant
                    self.wf(),
                    slot <= max_slots <= 4,
                    dlen == self.spec_data().len(),
                    data == self.spec_data(),
                    dirs == self.spec_dirs(),
                    self.spec_data() == old(self).spec_data(),
                    self.spec_fats() == old(self).spec_fats(),
                    self.spec_dirs() == old(self).spec_dirs(),
                    self.spec_minifats() == old(self).spec_minifats(),
                    so64 == spec_sector_offset(sector),
                    max_slots > 0 ==> spec_sector_offset(sector) + max_slots * 128 <= dlen,
                    max_slots < 4 ==> spec_sector_offset(sector) + max_slots * 128 + 128
                        > dlen,
                    spec_walk_sector(data, self.walk_state(), sector, slot as int)
                        == spec_walk_sector(data, w_sector, sector, 0),
                decreases max_slots - slot,
            {
                let entry_offset = slot * DIRECTORY_ENTRY_SIZE;
                let abs64 = so64 + entry_offset as u64;
                let abs = abs64 as usize;
                let ghost w_pre = self.walk_state();
                let ghost off = spec_sector_offset(sector) + slot as int * 128;
                proof {
                    assert(off + 128 <= dlen);
                    assert(spec_walk_sector(data, w_pre, sector, slot as int)
                        == spec_walk_sector(
                        data,
                        spec_walk_entry(data, w_pre, off),
                        sector,
                        slot as int + 1,
                    ));
                }
                match self.read_directory_entry(abs) {
                    Ok(entry) => {
                        proof {
                            assert(spec_dir_entry(data, off) == Some(entry@));
                        }
                        if entry.stream_type == ROOT_STORAGE_TYPE {
                            let ghost pre = *self;
                            self.mini_stream_start = entry.start_sector;
                            self.mini_stream_size = entry.size;
                            proof {
                                assert(self.entries() =~= pre.entries());
                                assert(self.wf());
                            }
                        }
                        if entry.stream_type == STORAGE_TYPE || entry.stream_type == STREAM_TYPE
                            || entry.stream_type == ROOT_STORAGE_TYPE {
                            self.insert_entry(entry);
                        }
                        proof {
                            assert(self.walk_state() == spec_walk_entry(data, w_pre, off));
                        }
                    },
                    Err(_) => {
                        proof {
                            assert(spec_dir_entry(data, off) is None);
                            assert(self.walk_state() == spec_walk_entry(data, w_pre, off));
                        }
                    },
                }
                slot = slot + 1;
            }
            proof {
                assert(spec_walk_sector(data, self.walk_state(), sector, max_slots as int)
                    == self.walk_state());
            }
        }
        Ok(())
    }

    /// Parses a compound-file buffer: header first, then the directory.
    /// Succeeds exactly when the header is accepted. The directory sectors
    /// are the FAT chain walked from the header's first directory sector,
    /// the mini-FAT sectors likewise when the header declares any, and the
    /// recorded entries and mini-stream source are exactly what the
    /// directory walk over those sectors yields from an empty table.
    pub fn new(data: &'a [u8]) -> (r: Result<OLECFParser<'a>, &'static str>)
        ensures
            r is Ok <==> spec_header_accepts(data@),
            r is Ok ==> {
                let p = r->Ok_0;
                &&& p.wf()
                &&& p.spec_data() == data@
                &&& p.spec_fats() == spec_fat_sectors(data@)
                &&& spec_is_chain(
                    data@,
                    spec_fat_sectors(data@),
                    spec_u32_at(data@, 48),
                    p.spec_dirs(),
                )
                &&& if spec_u32_at(data@, 64) > 0 && spec_u32_at(data@, 60)
                    < MAX_REGULAR_SECTOR {
                    spec_is_chain(
                        data@,
                        spec_fat_sectors(data@),
                        spec_u32_at(data@, 60),
                        p.spec_minifats(),
                    )
                } else {
                    p.spec_minifats() == Seq::<u32>::empty()
                }
                &&& p.walk_state() == spec_walk_dirs(
                    data@,
                    p.spec_dirs(),
                    DirWalk { entries: Seq::empty(), mini_start: 0, mini_size: 0 },
                    0,
                )
            },
    {
        let mut parser = OLECFParser {
            data,
            sector_size: SECTOR_SIZE,
            mini_sector_size: MINI_SECTOR_SIZE,
            fat_sectors: Vec::new(),
            directory_sectors: Vec::new(),
            mini_fat_sectors: Vec::new(),
            dir_entries: Vec::new(),
            mini_stream_start: 0,
            mini_stream_size: 0,
        };
        proof {
            assert(parser.entries() =~= Seq::<DirectoryEntryV>::empty());
        }
        match parser.parse_header() {
            Ok(()) => {},
            Err(_) => {
                return Err("Failed to parse OLECF data");
            },
        }
        match parser.parse_directory() {
            Ok(()) => {},
            Err(_) => {
                return Err("Failed to parse OLECF data");
            },
        }
        Ok(parser)
    }

    /// Whether the buffer starts with the compound-file signature.
    pub fn is_valid_header(&self) -> (r: bool)
        requires
            self.wf(),
        ensures
            r == spec_sig_ok(self.spec_data()),
    {
        let data = self.data;
        if data.len() < 8 {
            return false;
        }
        let sig_ok = data[0] == 0xd0 && data[1] == 0xcf && data[2] == 0x11 && data[3] == 0xe0
            && data[4] == 0xa1 && data[5] == 0xb1 && data[6] == 0x1a && data[7] == 0xe1;
        proof {
            if sig_ok {
                assert(self.spec_data().subrange(0, 8) =~= spec_signature());
            } else {
                assert(self.spec_data().subrange(0, 8) != spec_signature()) by {
                    if self.spec_data().subrange(0, 8) == spec_signature() {
                        assert(self.spec_data()[0] == 0xd0);
                        assert(self.spec_data()[1] == 0xcf);
                        assert(self.spec_data()[2] == 0x11);
                        assert(self.spec_data()[3] == 0xe0);
                        assert(self.spec_data()[4] == 0xa1);
                        assert(self.spec_data()[5] == 0xb1);
                        assert(self.spec_data()[6] == 0x1a);
                        assert(self.spec_data()[7] == 0xe1);
                    }
                }
            }
        }
        sig_ok
    }

    /// The names of all recorded directory entries, or an error when there
    /// are none.
    pub fn get_stream_names(&self) -> (r: Result<Vec<String>, &'static str>)
        requires
            self.wf(),
        ensures
            r is Ok <==> self.entries().len() > 0,
            r is Ok ==> r->Ok_0@.map(|i: int, s: String| s@) == self.entries().map(
                |i: int, e: DirectoryEntryV| e.name,
            ),
    {
        if self.dir_entries.len() == 0 {
            return Err("No streams found");
        }
        let mut names: Vec<String> = Vec::new();
        let n = self.dir_entries.len();
        for i in 0..n
            invariant
                self.wf(),
                n == self.entries().len(),
                names@.map(|k: int, s: String| s@) =~= self.entries().map(
                    |k: int, e: DirectoryEntryV| e.name,
                ).take(i as int),
        {
            let ghost prevm = names@.map(|k: int, s: String| s@);
            names.push(self.dir_entries[i].name.clone());
            proof {
                let newm = names@.map(|k: int, s: String| s@);
                let m = self.entries().map(|k: int, e: DirectoryEntryV| e.name);
                assert(newm.len() == prevm.len() + 1);
                assert(forall|k: int| 0 <= k < prevm.len() ==> newm[k] == prevm[k]);
                assert(newm[i as int] == self.entries()[i as int].name);
                assert(newm =~= m.take(i as int + 1));
            }
        }
        proof {
            let m = self.entries().map(|k: int, e: DirectoryEntryV| e.name);
            assert(m.take(n as int) =~= m);
        }
        Ok(names)
    }

    /// The recorded size of the named stream, or an error when no entry
    /// carries that name.
    pub fn get_stream_size(&self, stream_name: &str) -> (r: Result<u64, &'static str>)
        requires
            self.wf(),
        ensures
            r is Ok <==> spec_find_name(self.entries(), stream_name@) >= 0,
            r is Ok ==> r->Ok_0 == self.entries()[spec_find_name(
                self.entries(),
                stream_name@,
            )].size,
            r is Err ==> r->Err_0@ == "Stream not found"@,
    {
        match self.find_entry(stream_name) {
            Some(i) => {
                proof {
                    assert(i as int == spec_find_name(self.entries(), stream_name@));
                    lemma_find_name_props(self.entries(), stream_name@);
                    assert(0 <= i as int && (i as int) < self.entries().len());
                }
                Ok(self.dir_entries[i].size)
            },
            None => Err("Stream not found"),
        }
    }

    /// All recorded directory entries, in insertion order.
    pub fn get_streams(&self) -> (r: Vec<DirectoryEntry>)
        requires
            self.wf(),
        ensures
            r@.map(|i: int, e: DirectoryEntry| e@) == self.entries(),
    {
        let mut out: Vec<DirectoryEntry> = Vec::new();
        let n = self.dir_entries.len();
        for i in 0..n
            invariant
                self.wf(),
                n == self.entries().len(),
                out@.map(|k: int, e: DirectoryEntry| e@) =~= self.entries().take(i as int),
        {
            let e = &self.dir_entries[i];
            let copy = DirectoryEntry {
                name: e.name.clone(),
                size: e.size,
                start_sector: e.start_sector,
                stream_type: e.stream_type,
            };
            let ghost prevm = out@.map(|k: int, e: DirectoryEntry| e@);
            proof {
                assert(copy@ == self.entries()[i as int]);
            }
            out.push(copy);
            proof {
                let newm = out@.map(|k: int, e: DirectoryEntry| e@);
                assert(newm.len() == prevm.len() + 1);
                assert(forall|k: int| 0 <= k < prevm.len() ==> newm[k] == prevm[k]);
                assert(newm[i as int] == self.entries()[i as int]);
                assert(newm =~= self.entries().take(i as int + 1));
            }
        }
        proof {
            assert(self.entries().take(n as int) =~= self.entries());
        }
        out
    }

    /// A whole mini-stream read: the root storage's chain is read into the
    /// mini stream, then `size` bytes are gathered through the mini-FAT.
    pub open spec fn spec_mini_data(self, start: u32, size: u64) -> Option<Seq<u8>> {
        if self.spec_mini_size() == 0 {
            None
        } else {
            match spec_regular_result(
                self.spec_data(),
                self.spec_fats(),
                self.spec_mini_start(),
                self.spec_mini_size(),
            ) {
                None => None,
                Some(root) => match spec_read_mini(
                    self.spec_data(),
                    self.spec_minifats(),
                    root,
                    start,
                    size as nat,
                ) {
                    None => None,
                    Some(b) => if b.len() == size {
                        Some(b)
                    } else {
                        None
                    },
                },
            }
        }
    }

    /// The bytes of the named stream: entries smaller than 4096 bytes (the
    /// root storage excepted) live in the mini stream, the rest in regular
    /// sectors.
    pub open spec fn spec_stream_data(self, name: Seq<char>) -> Option<Seq<u8>> {
        let f = spec_find_name(self.entries(), name);
        if f < 0 {
            None
        } else {
            let e = self.entries()[f];
            if e.size < 4096 && e.stream_type != ROOT_STORAGE_TYPE {
                self.spec_mini_data(e.start_sector, e.size)
            } else {
                spec_regular_result(self.spec_data(), self.spec_fats(), e.start_sector, e.size)
            }
        }
    }

    /// Looks up the mini-FAT entry for a mini sector; an absent mini-FAT or
    /// an index past it reads as end-of-chain.
    fn get_minifat_entry(&self, mini_sector: u32) -> (r: Result<u32, &'static str>)
        requires
            self.wf(),
        ensures
            r is Ok <==> spec_minifat_entry(
                self.spec_data(),
                self.spec_minifats(),
                mini_sector,
            ) is Some,
            r is Ok ==> Some(r->Ok_0) == spec_minifat_entry(
                self.spec_data(),
                self.spec_minifats(),
                mini_sector,
            ),
    {
        if self.mini_fat_sectors.len() == 0 {
            return Ok(ENDOFCHAIN);
        }
        let entry_index = mini_sector as usize;
        let entries_per_sector = self.sector_size / 4;
        let fat_sector_index = entry_index / entries_per_sector;
        if fat_sector_index >= self.mini_fat_sectors.len() {
            return Ok(ENDOFCHAIN);
        }
        let sector = self.mini_fat_sectors[fat_sector_index];
        let fat = match self.read_sector(sector) {
            Ok(f) => f,
            Err(e) => {
                return Err(e);
            },
        };
        let offset = (entry_index % entries_per_sector) * 4;
        proof {
            assert(mini_sector as int / 128 == fat_sector_index as int);
            assert(mini_sector as int % 128 == entry_index as int % 128);
            assert(offset + 4 <= 512);
        }
        let r = parse_u32_at(fat, offset);
        proof {
            let data = self.spec_data();
            let soff = spec_sector_offset(sector);
            assert(fat@[offset as int] == data[soff + offset]);
            assert(fat@[offset + 1] == data[soff + offset + 1]);
            assert(fat@[offset + 2] == data[soff + offset + 2]);
            assert(fat@[offset + 3] == data[soff + offset + 3]);
        }
        r
    }

    /// Reads `size` bytes by following the FAT chain from `start_sector`,
    /// a whole sector at a time; a short read is an error.
    fn get_regular_stream_data(&self, start_sector: u32, size: u64) -> (r: Result<
        Vec<u8>,
        &'static str,
    >)
        requires
            self.wf(),
        ensures
            r is Ok <==> spec_regular_result(
                self.spec_data(),
                self.spec_fats(),
                start_sector,
                size,
            ) is Some,
            r is Ok ==> Some(r->Ok_0@) == spec_regular_result(
                self.spec_data(),
                self.spec_fats(),
                start_sector,
                size,
            ),
    {
        let ghost data = self.spec_data();
        let ghost fats = self.spec_fats();
        let ghost full = spec_read_chain(data, fats, start_sector, size as nat);
        let mut out: Vec<u8> = Vec::new();
        let mut current = start_sector;
        let mut total_read: u64 = 0;
        proof {
            assert(out@ =~= Seq::<u8>::empty());
        }
        while current < MAX_REGULAR_SECTOR && total_read < size
            invariant
                self.wf(),
                data == self.spec_data(),
                fats == self.spec_fats(),
                full == spec_read_chain(data, fats, start_sector, size as nat),
                total_read <= size,
                out@.len() == total_read,
                full == match spec_read_chain(data, fats, current, (size - total_read) as nat) {
                    None => None::<Seq<u8>>,
                    Some(rest) => Some(out@ + rest),
                },
            decreases size - total_read,
        {
            let ghost rem = (size - total_read) as nat;
            let ghost out_pre = out@;
            let sector_data = match self.read_sector(current) {
                Ok(s) => s,
                Err(_) => {
                    proof {
                        assert(spec_read_chain(data, fats, current, rem) is None);
                    }
                    return Err("Sector read out of bounds");
                },
            };
            let btr64: u64 = if size - total_read < 512 {
                size - total_read
            } else {
                512
            };
            let btr = btr64 as usize;
            let mut chunk = crate::bytes::copy_bytes(&sector_data[0..btr]);
            out.append(&mut chunk);
            total_read = total_read + btr64;
            proof {
                let chunk_spec = spec_sector_bytes(data, current).take(btr64 as int);
                assert(out@ =~= out_pre + chunk_spec);
            }
            if total_read < size {
                let next = match self.get_fat_entry(current) {
                    Ok(n) => n,
                    Err(_) => {
                        proof {
                            assert(spec_read_chain(data, fats, current, rem) is None);
                        }
                        return Err("FAT entry sector index out of range");
                    },
                };
                if next == ENDOFCHAIN || next >= MAX_REGULAR_SECTOR {
                    proof {
                        let chunk_spec = spec_sector_bytes(data, current).take(btr64 as int);
                        assert(spec_read_chain(data, fats, current, rem) == Some(chunk_spec));
                        assert(full == Some(out@));
                        assert(out@.len() < size);
                    }
                    return Err("Incomplete stream data");
                }
                proof {
                    let chunk_spec = spec_sector_bytes(data, current).take(btr64 as int);
                    let tail = spec_read_chain(data, fats, next, (size - total_read) as nat);
                    assert(spec_read_chain(data, fats, current, rem) == match tail {
                        None => None::<Seq<u8>>,
                        Some(rest) => Some(chunk_spec + rest),
                    });
                    if tail is Some {
                        assert(out_pre + (chunk_spec + tail->0) =~= out@ + tail->0);
                    }
                }
                current = next;
            } else {
                proof {
                    let chunk_spec = spec_sector_bytes(data, current).take(btr64 as int);
                    assert(spec_read_chain(data, fats, current, rem) == Some(chunk_spec));
                    assert(full == Some(out@));
                    assert(spec_read_chain(data, fats, current, 0) == Some(Seq::<u8>::empty()));
                    assert(out@ + Seq::<u8>::empty() =~= out@);
                }
            }
        }
        proof {
            if total_read >= size {
                assert(spec_read_chain(data, fats, current, (size - total_read) as nat) == Some(
                    Seq::<u8>::empty(),
                ));
            } else {
                assert(spec_read_chain(data, fats, current, (size - total_read) as nat) == Some(
                    Seq::<u8>::empty(),
                ));
            }
            assert(out@ + Seq::<u8>::empty() =~= out@);
            assert(full == Some(out@));
        }
        let out_len = out.len();
        if (out_len as u64) != size {
            return Err("Incomplete stream data");
        }
        Ok(out)
    }

    /// Reads the whole mini stream through the root storage's chain.
    fn get_root_mini_stream_data(&self) -> (r: Result<Vec<u8>, &'static str>)
        requires
            self.wf(),
        ensures
            r is Ok <==> spec_regular_result(
                self.spec_data(),
                self.spec_fats(),
                self.spec_mini_start(),
                self.spec_mini_size(),
            ) is Some,
            r is Ok ==> Some(r->Ok_0@) == spec_regular_result(
                self.spec_data(),
                self.spec_fats(),
                self.spec_mini_start(),
                self.spec_mini_size(),
            ),
    {
        self.get_regular_stream_data(self.mini_stream_start, self.mini_stream_size)
    }

    /// Reads `size` bytes from the mini stream in 64-byte mini sectors,
    /// following the mini-FAT from `start_mini_sector`; a short read is an
    /// error.
    fn get_mini_stream_data(&self, start_mini_sector: u32, size: u64) -> (r: Result<
        Vec<u8>,
        &'static str,
    >)
        requires
            self.wf(),
        ensures
            r is Ok <==> self.spec_mini_data(start_mini_sector, size) is Some,
            r is Ok ==> Some(r->Ok_0@) == self.spec_mini_data(start_mini_sector, size),
            self.spec_mini_size() == 0 ==> r is Err && r->Err_0@ == "No mini stream present"@,
    {
        if self.mini_stream_size == 0 {
            return Err("No mini stream present");
        }
        let mini_stream_data = match self.get_root_mini_stream_data() {
            Ok(v) => v,
            Err(e) => {
                return Err(e);
            },
        };
        let ghost data = self.spec_data();
        let ghost minifats = self.spec_minifats();
        let ghost mini = mini_stream_data@;
        let ghost full = spec_read_mini(data, minifats, mini, start_mini_sector, size as nat);
        proof {
            assert(self.spec_mini_data(start_mini_sector, size) == match full {
                None => None::<Seq<u8>>,
                Some(b) => if b.len() == size {
                    Some(b)
                } else {
                    None::<Seq<u8>>
                },
            });
        }
        let mini_data_len = mini_stream_data.len();
        let mut out: Vec<u8> = Vec::new();
        let mut current = start_mini_sector;
        proof {
            assert(out@ =~= Seq::<u8>::empty());
        }
        while current < MAX_REGULAR_SECTOR && (out.len() as u64) < size
            invariant
                self.wf(),
                data == self.spec_data(),
                minifats == self.spec_minifats(),
                mini == mini_stream_data@,
                mini_data_len == mini.len(),
                self.spec_mini_size() != 0,
                Some(mini) == spec_regular_result(
                    self.spec_data(),
                    self.spec_fats(),
                    self.spec_mini_start(),
                    self.spec_mini_size(),
                ),
                full == spec_read_mini(data, minifats, mini, start_mini_sector, size as nat),
                out@.len() <= size,
                full == match spec_read_mini(
                    data,
                    minifats,
                    mini,
                    current,
                    (size - out@.len()) as nat,
                ) {
                    None => None::<Seq<u8>>,
                    Some(rest) => Some(out@ + rest),
                },
            decreases size - out@.len(),
        {
            let ghost rem = (size - out@.len()) as nat;
            let ghost out_pre = out@;
            let mo64: u64 = (current as u64) * 64;
            if mo64 >= mini_data_len as u64 {
                proof {
                    assert(spec_read_mini(data, minifats, mini, current, rem) is None);
                }
                return Err("Mini stream offset out of range");
            }
            let mini_offset = mo64 as usize;
            let out_len = out.len();
            let btr64: u64 = if size - (out_len as u64) < 64 {
                size - (out_len as u64)
            } else {
                64
            };
            let btr = btr64 as usize;
            if btr > mini_data_len - mini_offset {
                proof {
                    assert(spec_read_mini(data, minifats, mini, current, rem) is None);
                }
                return Err("Mini stream extends beyond available data");
            }
            let mut chunk = crate::bytes::copy_bytes(&mini_stream_data[mini_offset..mini_offset + btr]);
            out.append(&mut chunk);
            proof {
                let chunk_spec = mini.subrange(mo64 as int, mo64 as int + btr64 as int);
                assert(out@ =~= out_pre + chunk_spec);
            }
            if (out.len() as u64) < size {
                let next = match self.get_minifat_entry(current) {
                    Ok(n) => n,
                    Err(_) => {
                        proof {
                            assert(spec_read_mini(data, minifats, mini, current, rem) is None);
                        }
                        return Err("Sector read out of bounds");
                    },
                };
                if next == ENDOFCHAIN || next >= MAX_REGULAR_SECTOR {
                    proof {
                        let chunk_spec = mini.subrange(mo64 as int, mo64 as int + btr64 as int);
                        assert(spec_read_mini(data, minifats, mini, current, rem) == Some(
                            chunk_spec,
                        ));
                        assert(full == Some(out@));
                        assert(out@.len() < size);
                    }
                    return Err("Incomplete mini stream data");
                }
                proof {
                    let chunk_spec = mini.subrange(mo64 as int, mo64 as int + btr64 as int);
                    let tail = spec_read_mini(data, minifats, mini, next, (size - out@.len()) as nat);
                    assert(spec_read_mini(data, minifats, mini, current, rem) == match tail {
                        None => None::<Seq<u8>>,
                        Some(rest) => Some(chunk_spec + rest),
                    });
                    if tail is Some {
                        assert(out_pre + (chunk_spec + tail->0) =~= out@ + tail->0);
                    }
                }
                current = next;
            } else {
                proof {
                    let chunk_spec = mini.subrange(mo64 as int, mo64 as int + btr64 as int);
                    assert(spec_read_mini(data, minifats, mini, current, rem) == Some(chunk_spec));
                    assert(full == Some(out@));
                    assert(spec_read_mini(data, minifats, mini, current, 0) == Some(
                        Seq::<u8>::empty(),
                    ));
                    assert(out@ + Seq::<u8>::empty() =~= out@);
                }
            }
        }
        proof {
            assert(spec_read_mini(data, minifats, mini, current, (size - out@.len()) as nat)
                == Some(Seq::<u8>::empty()));
            assert(out@ + Seq::<u8>::empty() =~= out@);
            assert(full == Some(out@));
        }
        let out_len = out.len();
        if (out_len as u64) != size {
            return Err("Incomplete mini stream data");
        }
        Ok(out)
    }

    /// Reads the named stream's bytes: small entries through the mini
    /// stream, large entries and the root storage through regular sectors.
    pub fn get_stream_data(&self, stream_name: &str) -> (r: Result<Vec<u8>, &'static str>)
        requires
            self.wf(),
        ensures
            r is Ok <==> self.spec_stream_data(stream_name@) is Some,
            r is Ok ==> Some(r->Ok_0@) == self.spec_stream_data(stream_name@),
            spec_find_name(self.entries(), stream_name@) < 0 ==> r is Err && r->Err_0@
                == "Stream not found"@,
    {
        let i = match self.find_entry(stream_name) {
            Some(i) => i,
            None => {
                return Err("Stream not found");
            },
        };
        proof {
            lemma_find_name_props(self.entries(), stream_name@);
        }
        let size = self.dir_entries[i].size;
        let start = self.dir_entries[i].start_sector;
        let stype = self.dir_entries[i].stream_type;
        if size < 4096 && stype != ROOT_STORAGE_TYPE {
            self.get_mini_stream_data(start, size)
        } else {
            self.get_regular_stream_data(start, size)
        }
    }

    /// Index of the entry carrying `stream_name`, when one does.
    fn find_entry(&self, stream_name: &str) -> (r: Option<usize>)
        requires
            self.wf(),
        ensures
            r is Some <==> spec_find_name(self.entries(), stream_name@) >= 0,
            r is Some ==> r->0 as int == spec_find_name(self.entries(), stream_name@),
    {
        proof {
            lemma_find_name_props(self.entries(), stream_name@);
        }
        let key: String = stream_name.to_owned();
        let n = self.dir_entries.len();
        for i in 0..n
            invariant
                self.wf(),
                key@ == stream_name@,
                n == self.entries().len(),
                forall|j: int| 0 <= j < i ==> (#[trigger] self.entries()[j]).name != stream_name@,
        {
            let same = self.dir_entries[i].name == key;
            if same {
                proof {
                    assert(self.entries()[i as int].name == stream_name@);
                    lemma_find_name_props(self.entries(), stream_name@);
                    let f = spec_find_name(self.entries(), stream_name@);
                    if f == -1 {
                        assert(self.entries()[i as int].name != stream_name@);
                    } else if f < i as int {
                        assert(self.entries()[f].name != stream_name@);
                        assert(self.entries()[f].name == stream_name@);
                    } else if f > i as int {
                        assert(self.entries()[i as int].name != stream_name@);
                    }
                    assert(f == i as int);
                }
                return Some(i);
            }
            proof {
                assert(self.entries()[i as int].name != stream_name@);
            }
        }
        proof {
            lemma_find_name_props(self.entries(), stream_name@);
        }
        None
    }
}

} // verus!
