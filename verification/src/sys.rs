//! The numbers of the kernel interface (Linux, x86-64), and the packing of a
//! completion's routing word.
use vstd::prelude::*;

verus! {

pub const O_CREAT: u64 = 0x40;
pub const O_NONBLOCK: u64 = 0x800;
pub const O_DIRECTORY: u64 = 0x1_0000;
pub const O_NOFOLLOW: u64 = 0x2_0000;
pub const O_CLOEXEC: u64 = 0x8_0000;
pub const O_PATH: u64 = 0x20_0000;
/// `O_TMPFILE` is this bit and `O_DIRECTORY` together.
pub const O_TMPFILE_ONLY: u64 = 0x40_0000;

pub const RESOLVE_NO_XDEV: u64 = 0x01;
pub const RESOLVE_NO_MAGICLINKS: u64 = 0x02;
pub const RESOLVE_NO_SYMLINKS: u64 = 0x04;
pub const RESOLVE_BENEATH: u64 = 0x08;
pub const RESOLVE_IN_ROOT: u64 = 0x10;

/// Resolution rules that keep a path inside its anchor: no component above
/// it, no symlink followed, no mount point crossed.
pub const CONFINED_RESOLVE: u64 = 0x0d;

pub const AT_SYMLINK_NOFOLLOW: u32 = 0x100;
pub const AT_REMOVEDIR: u32 = 0x200;
pub const AT_SYMLINK_FOLLOW: u32 = 0x400;
pub const AT_EMPTY_PATH: u32 = 0x1000;

pub const DT_UNKNOWN: u8 = 0;
pub const DT_DIR: u8 = 4;
pub const DT_REG: u8 = 8;

pub const IORING_OP_READV: u8 = 1;
pub const IORING_OP_WRITEV: u8 = 2;
pub const IORING_OP_FSYNC: u8 = 3;
pub const IORING_OP_TIMEOUT: u8 = 11;
pub const IORING_OP_ASYNC_CANCEL: u8 = 14;
pub const IORING_OP_FALLOCATE: u8 = 17;
pub const IORING_OP_STATX: u8 = 21;
pub const IORING_OP_FADVISE: u8 = 24;
pub const IORING_OP_OPENAT2: u8 = 28;
pub const IORING_OP_SPLICE: u8 = 30;
pub const IORING_OP_RENAMEAT: u8 = 35;
pub const IORING_OP_UNLINKAT: u8 = 36;
pub const IORING_OP_MKDIRAT: u8 = 37;
pub const IORING_OP_SYMLINKAT: u8 = 38;
pub const IORING_OP_LINKAT: u8 = 39;
pub const IORING_OP_FSETXATTR: u8 = 41;
pub const IORING_OP_FGETXATTR: u8 = 43;
pub const IORING_OP_FTRUNCATE: u8 = 55;

pub const IORING_FSYNC_DATASYNC: u32 = 1;
pub const IOSQE_BUFFER_SELECT: u8 = 0x20;
pub const IORING_CQE_F_MORE: u32 = 2;
pub const SPLICE_F_MOVE: u32 = 1;
/// `sizeof(struct open_how)`.
pub const OPEN_HOW_SIZE: u32 = 24;

pub const TAG_OPEN: u8 = 0x80;
pub const TAG_READV: u8 = 0x81;
pub const TAG_WRITEV: u8 = 0x82;
pub const TAG_FSYNC: u8 = 0x83;
pub const TAG_STATX: u8 = 0x84;
pub const TAG_FALLOCATE: u8 = 0x87;
pub const TAG_FTRUNCATE: u8 = 0x88;
pub const TAG_RENAMEAT: u8 = 0x89;
pub const TAG_UNLINKAT: u8 = 0x8A;
pub const TAG_MKDIRAT: u8 = 0x8B;
pub const TAG_SYMLINKAT: u8 = 0x8C;
pub const TAG_LINKAT: u8 = 0x8D;
pub const TAG_FGETXATTR: u8 = 0x8E;
pub const TAG_FSETXATTR: u8 = 0x8F;
pub const TAG_FADVISE: u8 = 0x90;
pub const TAG_SPLICE: u8 = 0x91;
pub const TAG_TIMEOUT: u8 = 0x92;
/// The standalone host's wake tag (an embedded host reuses its own).
pub const TAG_WAKE: u8 = 0x9D;
/// Tags an `ASYNC_CANCEL`; its own completion is ignored.
pub const TAG_CANCEL: u8 = 0x9E;
/// The bit every file-system tag carries.
pub const TAG_FS_DOMAIN: u8 = 0x80;

/// The largest slot index a routing word can carry.
pub const SLOT_MASK: u64 = 0xff_ffff;

/// The routing word of a completion: the tag in the top byte, the slot in
/// the next twenty-four bits, the low half of the generation below.
pub open spec fn packed(tag: u8, slot: u32, gen32: u32) -> u64 {
    ((tag as u64) << 56) | (((slot as u64) & SLOT_MASK) << 32) | (gen32 as u64)
}

/// The tag, slot and generation a routing word carries.
pub open spec fn unpacked(ud: u64) -> (u8, u32, u32) {
    ((ud >> 56) as u8, ((ud >> 32) & SLOT_MASK) as u32, (ud & 0xffff_ffff) as u32)
}

/// Pack a routing word.
pub fn pack_raw(tag: u8, slot: u32, gen32: u32) -> (r: u64)
    ensures
        r == packed(tag, slot, gen32),
{
    ((tag as u64) << 56) | (((slot as u64) & SLOT_MASK) << 32) | (gen32 as u64)
}

/// Take a routing word apart.
pub fn unpack_raw(ud: u64) -> (r: (u8, u32, u32))
    ensures
        r == unpacked(ud),
{
    (
        #[verifier::truncate]
        ((ud >> 56) as u8),
        #[verifier::truncate]
        (((ud >> 32) & SLOT_MASK) as u32),
        #[verifier::truncate]
        ((ud & 0xffff_ffff) as u32),
    )
}

/// A routing word gives back what it was packed from, for every slot it can
/// carry.
pub proof fn law_routing_word_round_trip(tag: u8, slot: u32, gen32: u32)
    requires
        slot <= SLOT_MASK,
    ensures
        unpacked(packed(tag, slot, gen32)) == (tag, slot, gen32),
{
    let ud = packed(tag, slot, gen32);
    let (t, s, g) = unpacked(ud);
    assert(t == tag && s == slot && g == gen32) by (bit_vector)
        requires
            slot <= 0xff_ffffu32,
            ud == ((tag as u64) << 56) | (((slot as u64) & 0xff_ffff) << 32) | (gen32 as u64),
            t == (ud >> 56) as u8,
            s == ((ud >> 32) & 0xff_ffff) as u32,
            g == (ud & 0xffff_ffff) as u32,
    ;
}

/// The low half of a slot's full-width generation, as a routing word carries
/// it.
pub open spec fn low32(generation: u64) -> u32 {
    (generation & 0xffff_ffff) as u32
}

pub fn gen_low(generation: u64) -> (r: u32)
    ensures
        r == low32(generation),
{
    #[verifier::truncate]
    ((generation & 0xffff_ffff) as u32)
}

/// The generation after this one: they wrap at the width of the counter.
pub open spec fn next_generation(generation: u64) -> u64 {
    if generation == u64::MAX {
        0
    } else {
        (generation + 1) as u64
    }
}

/// Two consecutive generations never share a routing word's low half.
pub proof fn lemma_next_generation_differs(generation: u64)
    ensures
        low32(next_generation(generation)) != low32(generation),
{
    let n = next_generation(generation);
    let a = low32(n);
    let b = low32(generation);
    assert(a != b) by (bit_vector)
        requires
            generation == 0xffff_ffff_ffff_ffffu64 ==> n == 0,
            generation != 0xffff_ffff_ffff_ffffu64 ==> n == generation + 1,
            a == (n & 0xffff_ffff) as u32,
            b == (generation & 0xffff_ffff) as u32,
    ;
}

/// Where a routing word holds what: the tag in its top byte, the slot in the
/// three below, the generation in the rest.
pub proof fn law_routing_word_layout(tag: u8, slot: u32, gen32: u32)
    requires
        slot <= SLOT_MASK,
    ensures
        packed(tag, slot, gen32) == tag * 0x100_0000_0000_0000 + slot * 0x1_0000_0000 + gen32,
{
    let ud = packed(tag, slot, gen32);
    let sum: u64 = (tag * 0x100_0000_0000_0000 + slot * 0x1_0000_0000 + gen32) as u64;
    assert(ud == sum) by (bit_vector)
        requires
            slot <= 0xff_ffffu32,
            ud == ((tag as u64) << 56) | (((slot as u64) & 0xff_ffff) << 32) | (gen32 as u64),
            sum == (tag as u64) * 0x100_0000_0000_0000u64 + (slot as u64) * 0x1_0000_0000u64 + (
            gen32 as u64),
    ;
}

/// Generations count up by one and start over at the end; a routing word
/// carries them modulo its width.
pub proof fn law_generations_count_up(generation: u64)
    ensures
        next_generation(generation) == (generation + 1) % 0x1_0000_0000_0000_0000,
        low32(generation) == generation % 0x1_0000_0000,
{
    let low = low32(generation);
    assert(low as u64 == generation % 0x1_0000_0000u64) by (bit_vector)
        requires
            low == (generation & 0xffff_ffff) as u32,
    ;
}

} // verus!
