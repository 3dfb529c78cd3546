//! SHA-256.

use vstd::prelude::*;

use crate::text::join2;

verus! {

/// The round constants.
pub open spec fn round_constants() -> Seq<u32> {
    seq![
        0x428a_2f98u32, 0x7137_4491u32, 0xb5c0_fbcfu32, 0xe9b5_dba5u32, 0x3956_c25bu32, 0x59f1_11f1u32, 0x923f_82a4u32, 0xab1c_5ed5u32,
        0xd807_aa98u32, 0x1283_5b01u32, 0x2431_85beu32, 0x550c_7dc3u32, 0x72be_5d74u32, 0x80de_b1feu32, 0x9bdc_06a7u32, 0xc19b_f174u32,
        0xe49b_69c1u32, 0xefbe_4786u32, 0x0fc1_9dc6u32, 0x240c_a1ccu32, 0x2de9_2c6fu32, 0x4a74_84aau32, 0x5cb0_a9dcu32, 0x76f9_88dau32,
        0x983e_5152u32, 0xa831_c66du32, 0xb003_27c8u32, 0xbf59_7fc7u32, 0xc6e0_0bf3u32, 0xd5a7_9147u32, 0x06ca_6351u32, 0x1429_2967u32,
        0x27b7_0a85u32, 0x2e1b_2138u32, 0x4d2c_6dfcu32, 0x5338_0d13u32, 0x650a_7354u32, 0x766a_0abbu32, 0x81c2_c92eu32, 0x9272_2c85u32,
        0xa2bf_e8a1u32, 0xa81a_664bu32, 0xc24b_8b70u32, 0xc76c_51a3u32, 0xd192_e819u32, 0xd699_0624u32, 0xf40e_3585u32, 0x106a_a070u32,
        0x19a4_c116u32, 0x1e37_6c08u32, 0x2748_774cu32, 0x34b0_bcb5u32, 0x391c_0cb3u32, 0x4ed8_aa4au32, 0x5b9c_ca4fu32, 0x682e_6ff3u32,
        0x748f_82eeu32, 0x78a5_636fu32, 0x84c8_7814u32, 0x8cc7_0208u32, 0x90be_fffau32, 0xa450_6cebu32, 0xbef9_a3f7u32, 0xc671_78f2u32,
    ]
}

/// The hash value that hashing starts with.
pub open spec fn initial_hash() -> Seq<u32> {
    seq![
        0x6a09_e667u32, 0xbb67_ae85u32, 0x3c6e_f372u32, 0xa54f_f53au32, 0x510e_527fu32, 0x9b05_688cu32, 0x1f83_d9abu32, 0x5be0_cd19u32,
    ]
}

/// `x` rotated right by `n` bits.
pub open spec fn rotated(x: u32, n: u32) -> u32 {
    (x >> n) | (x << ((32 - n) as u32))
}

pub open spec fn lower_sigma_0(x: u32) -> u32 {
    rotated(x, 7) ^ rotated(x, 18) ^ (x >> 3u32)
}

pub open spec fn lower_sigma_1(x: u32) -> u32 {
    rotated(x, 17) ^ rotated(x, 19) ^ (x >> 10u32)
}

pub open spec fn upper_sigma_0(x: u32) -> u32 {
    rotated(x, 2) ^ rotated(x, 13) ^ rotated(x, 22)
}

pub open spec fn upper_sigma_1(x: u32) -> u32 {
    rotated(x, 6) ^ rotated(x, 11) ^ rotated(x, 25)
}

pub open spec fn choice(x: u32, y: u32, z: u32) -> u32 {
    (x & y) ^ (!x & z)
}

pub open spec fn majority(x: u32, y: u32, z: u32) -> u32 {
    (x & y) ^ (x & z) ^ (y & z)
}

/// The number that four bytes stand for, the highest first.
pub open spec fn big_endian(a: u8, b: u8, c: u8, d: u8) -> u32 {
    ((a as u32) << 24u32) | ((b as u32) << 16u32) | ((c as u32) << 8u32) | (d as u32)
}

/// Word `t` of the message schedule of a block of 64 bytes.
pub open spec fn scheduled(block: Seq<u8>, t: int) -> u32
    decreases t,
{
    if t < 16 {
        big_endian(block[4 * t], block[4 * t + 1], block[4 * t + 2], block[4 * t + 3])
    } else {
        scheduled(block, t - 16).wrapping_add(lower_sigma_0(scheduled(block, t - 15))).wrapping_add(
            scheduled(block, t - 7),
        ).wrapping_add(lower_sigma_1(scheduled(block, t - 2)))
    }
}

/// One round on the eight working variables.
pub open spec fn round(v: Seq<u32>, k: u32, w: u32) -> Seq<u32> {
    let t1 = v[7].wrapping_add(upper_sigma_1(v[4])).wrapping_add(choice(v[4], v[5], v[6])).wrapping_add(k).wrapping_add(w);
    let t2 = upper_sigma_0(v[0]).wrapping_add(majority(v[0], v[1], v[2]));
    seq![t1.wrapping_add(t2), v[0], v[1], v[2], v[3].wrapping_add(t1), v[4], v[5], v[6]]
}

/// The working variables after the first `n` rounds on a block.
pub open spec fn rounds(v: Seq<u32>, block: Seq<u8>, n: int) -> Seq<u32>
    decreases n,
{
    if n <= 0 {
        v
    } else {
        round(rounds(v, block, n - 1), round_constants()[n - 1], scheduled(block, n - 1))
    }
}

/// The hash value after one more block.
pub open spec fn compressed(h: Seq<u32>, block: Seq<u8>) -> Seq<u32> {
    Seq::new(8, |i: int| h[i].wrapping_add(rounds(h, block, 64)[i]))
}

/// How many zero bytes stand between the marker and the length.
pub open spec fn zero_count(len: nat) -> nat {
    (119 - len % 64) as nat % 64
}

/// The eight bytes of a number, the highest first.
pub open spec fn eight_bytes(n: u64) -> Seq<u8> {
    Seq::new(8, |i: int| (n >> ((56 - 8 * i) as u64)) as u8)
}

/// The message padded to a multiple of 64 bytes: a marker, zeros, and the length
/// in bits.
pub open spec fn padded_message(data: Seq<u8>) -> Seq<u8> {
    data + seq![0x80u8] + Seq::new(zero_count(data.len()), |i: int| 0u8) + eight_bytes(
        (data.len() as u64).wrapping_mul(8),
    )
}

/// The hash value after the first `n` blocks of a padded message.
pub open spec fn hashed(msg: Seq<u8>, n: int) -> Seq<u32>
    decreases n,
{
    if n <= 0 {
        initial_hash()
    } else {
        compressed(hashed(msg, n - 1), msg.subrange(64 * (n - 1), 64 * n))
    }
}

/// The SHA-256 hash value of a message.
pub open spec fn sha256(data: Seq<u8>) -> Seq<u32> {
    let msg = padded_message(data);
    hashed(msg, msg.len() as int / 64)
}

/// The character of a hexadecimal digit.
pub open spec fn hex_char(d: int) -> char {
    if d < 10 {
        (48 + d) as char
    } else {
        (87 + d) as char
    }
}

/// The eight hexadecimal digits of a word.
pub open spec fn hex_word(x: u32) -> Seq<char> {
    Seq::new(8, |i: int| hex_char(((x >> ((28 - 4 * i) as u32)) & 15u32) as int))
}

/// The hexadecimal digits of the first `n` words.
pub open spec fn hex_words(h: Seq<u32>, n: int) -> Seq<char>
    decreases n,
{
    if n <= 0 {
        Seq::empty()
    } else {
        hex_words(h, n - 1) + hex_word(h[n - 1])
    }
}

fn rotate(x: u32, n: u32) -> (r: u32)
    requires
        0 < n < 32,
    ensures
        r == rotated(x, n),
{
    (x >> n) | (x << (32 - n))
}

fn round_constant(i: usize) -> (r: u32)
    requires
        i < 64,
    ensures
        r == round_constants()[i as int],
{
    let k: [u32; 64] = [
        0x428a_2f98, 0x7137_4491, 0xb5c0_fbcf, 0xe9b5_dba5, 0x3956_c25b, 0x59f1_11f1, 0x923f_82a4, 0xab1c_5ed5,
        0xd807_aa98, 0x1283_5b01, 0x2431_85be, 0x550c_7dc3, 0x72be_5d74, 0x80de_b1fe, 0x9bdc_06a7, 0xc19b_f174,
        0xe49b_69c1, 0xefbe_4786, 0x0fc1_9dc6, 0x240c_a1cc, 0x2de9_2c6f, 0x4a74_84aa, 0x5cb0_a9dc, 0x76f9_88da,
        0x983e_5152, 0xa831_c66d, 0xb003_27c8, 0xbf59_7fc7, 0xc6e0_0bf3, 0xd5a7_9147, 0x06ca_6351, 0x1429_2967,
        0x27b7_0a85, 0x2e1b_2138, 0x4d2c_6dfc, 0x5338_0d13, 0x650a_7354, 0x766a_0abb, 0x81c2_c92e, 0x9272_2c85,
        0xa2bf_e8a1, 0xa81a_664b, 0xc24b_8b70, 0xc76c_51a3, 0xd192_e819, 0xd699_0624, 0xf40e_3585, 0x106a_a070,
        0x19a4_c116, 0x1e37_6c08, 0x2748_774c, 0x34b0_bcb5, 0x391c_0cb3, 0x4ed8_aa4a, 0x5b9c_ca4f, 0x682e_6ff3,
        0x748f_82ee, 0x78a5_636f, 0x84c8_7814, 0x8cc7_0208, 0x90be_fffa, 0xa450_6ceb, 0xbef9_a3f7, 0xc671_78f2,
    ];
    assert(k@ =~= round_constants());
    k[i]
}

/// The message schedule of the block that starts at `at`.
fn schedule(msg: &Vec<u8>, at: usize) -> (w: Vec<u32>)
    requires
        at + 64 <= msg@.len(),
    ensures
        w@.len() == 64,
        forall|t: int| 0 <= t < 64 ==> #[trigger] w@[t] == scheduled(msg@.subrange(at as int, at + 64), t),
{
    let ghost block = msg@.subrange(at as int, at + 64);
    let size: usize = msg.len();
    let mut w: Vec<u32> = Vec::new();
    let mut t: usize = 0;
    while t < 16
        invariant
            at + 64 <= size == msg@.len(),
            block == msg@.subrange(at as int, at + 64),
            t <= 16,
            w@.len() == t,
            forall|i: int| 0 <= i < t ==> #[trigger] w@[i] == scheduled(block, i),
        decreases 16 - t,
    {
        let p: usize = at + 4 * t;
        let a: u8 = msg[p];
        let b: u8 = msg[p + 1];
        let c: u8 = msg[p + 2];
        let d: u8 = msg[p + 3];
        w.push(((a as u32) << 24u32) | ((b as u32) << 16u32) | ((c as u32) << 8u32) | (d as u32));
        t = t + 1;
    }
    while t < 64
        invariant
            16 <= t <= 64,
            w@.len() == t,
            forall|i: int| 0 <= i < t ==> #[trigger] w@[i] == scheduled(block, i),
        decreases 64 - t,
    {
        let x: u32 = w[t - 15];
        let y: u32 = w[t - 2];
        let s0: u32 = rotate(x, 7) ^ rotate(x, 18) ^ (x >> 3u32);
        let s1: u32 = rotate(y, 17) ^ rotate(y, 19) ^ (y >> 10u32);
        let sum: u32 = w[t - 16].wrapping_add(s0).wrapping_add(w[t - 7]).wrapping_add(s1);
        assert(scheduled(block, t as int) == sum);
        w.push(sum);
        t = t + 1;
    }
    w
}

/// Takes the block that starts at `at` into the hash value.
fn compress(h: &Vec<u32>, msg: &Vec<u8>, at: usize) -> (r: Vec<u32>)
    requires
        h@.len() == 8,
        at + 64 <= msg@.len(),
    ensures
        r@ == compressed(h@, msg@.subrange(at as int, at + 64)),
{
    let ghost block = msg@.subrange(at as int, at + 64);
    let w: Vec<u32> = schedule(msg, at);
    let mut a: u32 = h[0];
    let mut b: u32 = h[1];
    let mut c: u32 = h[2];
    let mut d: u32 = h[3];
    let mut e: u32 = h[4];
    let mut f: u32 = h[5];
    let mut g: u32 = h[6];
    let mut hh: u32 = h[7];
    let mut i: usize = 0;
    assert(seq![a, b, c, d, e, f, g, hh] =~= h@);
    while i < 64
        invariant
            i <= 64,
            w@.len() == 64,
            forall|t: int| 0 <= t < 64 ==> #[trigger] w@[t] == scheduled(block, t),
            seq![a, b, c, d, e, f, g, hh] == rounds(h@, block, i as int),
        decreases 64 - i,
    {
        let ghost v = rounds(h@, block, i as int);
        proof {
            assert(v[0] == a && v[1] == b && v[2] == c && v[3] == d && v[4] == e && v[5] == f && v[6] == g && v[7] == hh) by {
                let s = seq![a, b, c, d, e, f, g, hh];
                assert(s[0] == a && s[1] == b && s[2] == c && s[3] == d && s[4] == e && s[5] == f && s[6] == g && s[7] == hh);
            }
        }
        let s1: u32 = rotate(e, 6) ^ rotate(e, 11) ^ rotate(e, 25);
        let ch: u32 = (e & f) ^ (!e & g);
        let t1: u32 = hh.wrapping_add(s1).wrapping_add(ch).wrapping_add(round_constant(i)).wrapping_add(w[i]);
        let s0: u32 = rotate(a, 2) ^ rotate(a, 13) ^ rotate(a, 22);
        let maj: u32 = (a & b) ^ (a & c) ^ (b & c);
        let t2: u32 = s0.wrapping_add(maj);
        hh = g;
        g = f;
        f = e;
        e = d.wrapping_add(t1);
        d = c;
        c = b;
        b = a;
        a = t1.wrapping_add(t2);
        i = i + 1;
        assert(seq![a, b, c, d, e, f, g, hh] =~= rounds(h@, block, i as int));
    }
    let ghost v = rounds(h@, block, 64);
    proof {
        let s = seq![a, b, c, d, e, f, g, hh];
        assert(s[0] == a && s[1] == b && s[2] == c && s[3] == d && s[4] == e && s[5] == f && s[6] == g && s[7] == hh);
        assert(s == v);
    }
    let mut r: Vec<u32> = Vec::new();
    r.push(h[0].wrapping_add(a));
    r.push(h[1].wrapping_add(b));
    r.push(h[2].wrapping_add(c));
    r.push(h[3].wrapping_add(d));
    r.push(h[4].wrapping_add(e));
    r.push(h[5].wrapping_add(f));
    r.push(h[6].wrapping_add(g));
    r.push(h[7].wrapping_add(hh));
    assert(r@ =~= compressed(h@, block));
    r
}

/// Pads a message.
fn pad(data: &[u8]) -> (msg: Vec<u8>)
    requires
        data@.len() + 128 <= usize::MAX,
    ensures
        msg@ == padded_message(data@),
        msg@.len() % 64 == 0,
{
    let n: usize = data.len();
    let bits: u64 = (n as u64).wrapping_mul(8);
    let mut msg: Vec<u8> = Vec::new();
    let mut i: usize = 0;
    while i < n
        invariant
            i <= n == data@.len(),
            msg@ == data@.take(i as int),
        decreases n - i,
    {
        msg.push(data[i]);
        i = i + 1;
        assert(msg@ =~= data@.take(i as int));
    }
    assert(data@.take(n as int) =~= data@);
    msg.push(0x80);
    let ghost head = data@ + seq![0x80u8];
    assert(msg@ =~= head);
    let ghost zeros = zero_count(data@.len());
    let mut z: usize = 0;
    assert(head =~= head + Seq::new(0, |k: int| 0u8));
    while msg.len() % 64 != 56
        invariant
            n == data@.len(),
            n + 128 <= usize::MAX,
            head == data@ + seq![0x80u8],
            zeros == zero_count(data@.len()),
            z <= zeros,
            msg@ == head + Seq::new(z as nat, |k: int| 0u8),
        decreases zeros - z,
    {
        msg.push(0);
        z = z + 1;
        assert(msg@ =~= head + Seq::new(z as nat, |k: int| 0u8));
    }
    assert(z == zeros);
    let ghost before = msg@;
    let mut k: usize = 0;
    while k < 8
        invariant
            k <= 8,
            msg@ == before + eight_bytes(bits).take(k as int),
        decreases 8 - k,
    {
        let shift: u64 = 56 - 8 * (k as u64);
        let byte: u8 = #[verifier::truncate]
        ((bits >> shift) as u8);
        msg.push(byte);
        k = k + 1;
        assert(msg@ =~= before + eight_bytes(bits).take(k as int));
    }
    assert(eight_bytes(bits).take(8) =~= eight_bytes(bits));
    assert(msg@ =~= padded_message(data@));
    msg
}

/// The text of one hexadecimal digit.
fn hex_digit(d: u32) -> (r: &'static str)
    requires
        d < 16,
    ensures
        r@ == seq![hex_char(d as int)],
{
    proof {
        reveal_strlit("0");
        reveal_strlit("1");
        reveal_strlit("2");
        reveal_strlit("3");
        reveal_strlit("4");
        reveal_strlit("5");
        reveal_strlit("6");
        reveal_strlit("7");
        reveal_strlit("8");
        reveal_strlit("9");
        reveal_strlit("a");
        reveal_strlit("b");
        reveal_strlit("c");
        reveal_strlit("d");
        reveal_strlit("e");
        reveal_strlit("f");
    }
    match d {
        0 => "0",
        1 => "1",
        2 => "2",
        3 => "3",
        4 => "4",
        5 => "5",
        6 => "6",
        7 => "7",
        8 => "8",
        9 => "9",
        10 => "a",
        11 => "b",
        12 => "c",
        13 => "d",
        14 => "e",
        _ => "f",
    }
}

/// The SHA-256 hash value of `data`, in hexadecimal.
pub fn sha256_hex(data: &[u8]) -> (r: String)
    requires
        data@.len() + 128 <= usize::MAX,
    ensures
        r@ == hex_words(sha256(data@), 8),
{
    let msg: Vec<u8> = pad(data);
    let blocks: usize = msg.len() / 64;
    let mut h: Vec<u32> = vec![
        0x6a09_e667, 0xbb67_ae85, 0x3c6e_f372, 0xa54f_f53a, 0x510e_527f, 0x9b05_688c, 0x1f83_d9ab, 0x5be0_cd19
    ];
    assert(h@ =~= initial_hash());
    let mut i: usize = 0;
    while i < blocks
        invariant
            i <= blocks,
            msg@.len() == 64 * blocks <= usize::MAX,
            h@ == hashed(msg@, i as int),
            h@.len() == 8,
        decreases blocks - i,
    {
        h = compress(&h, &msg, 64 * i);
        i = i + 1;
    }
    let mut out: String = String::new();
    let mut n: usize = 0;
    while n < 8
        invariant
            n <= 8,
            h@.len() == 8,
            out@ == hex_words(h@, n as int),
        decreases 8 - n,
    {
        let x: u32 = h[n];
        let ghost before = out@;
        let mut k: u32 = 0;
        assert(out@ =~= before + hex_word(x).take(0));
        while k < 8
            invariant
                k <= 8,
                out@ == before + hex_word(x).take(k as int),
            decreases 8 - k,
        {
            let nibble: u32 = (x >> (28 - 4 * k)) & 15u32;
            assert(nibble < 16) by (bit_vector)
                requires
                    nibble == (x >> ((28 - 4 * k) as u32)) & 15u32,
            ;
            out = join2(out.as_str(), hex_digit(nibble));
            k = k + 1;
            assert(out@ =~= before + hex_word(x).take(k as int));
        }
        assert(hex_word(x).take(8) =~= hex_word(x));
        n = n + 1;
    }
    out
}

} // verus!
