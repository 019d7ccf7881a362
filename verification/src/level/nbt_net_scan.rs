use vstd::prelude::*;

verus! {

// The network variant of NBT writes lengths and numbers as varints: seven bits per byte,
// the high bit set on every byte but the last. A reader that accumulates a 32-bit varint
// into a `u32` can take at most five bytes, one of 64 bits at most ten. This module
// follows, byte by byte, the path along which a network NBT value is read (a root
// compound, its name, then its fields) and tells whether that path meets a varint that
// runs on past that many bytes.

/// How reading a varint at some position ends.
pub enum VarScan {
    /// The bytes end inside the varint.
    Stop,
    /// The varint has `limit` bytes with the high bit set, and another byte follows.
    Overflow,
    /// The varint ends: the low 32 bits of its value, and the position after it.
    Done(nat, int),
}

/// How reading a value at some position ends.
pub enum Scan {
    /// The reader stops (the bytes end, or a tag or length is refused) before any varint
    /// runs too long.
    Stop,
    /// The reader meets a varint that runs too long.
    Overflow,
    /// The value ends at this position.
    Next(int),
}

/// The weight, in the low 32 bits of the value, of the seven bits of byte `k` of a varint.
pub open spec fn chunk_weight(k: nat) -> nat {
    if k == 0 {
        1
    } else if k == 1 {
        128
    } else if k == 2 {
        16384
    } else if k == 3 {
        2097152
    } else if k == 4 {
        268435456
    } else {
        0
    }
}

/// Reads a varint whose first byte is at `start`, from byte `k` on, with `acc` the low 32
/// bits of the value of the bytes before; at most `limit` bytes may have the high bit set.
pub open spec fn varint_from(b: Seq<u8>, start: int, k: nat, limit: nat, acc: nat) -> VarScan
    decreases limit - k,
{
    if k >= limit || start < 0 || start + k >= b.len() {
        VarScan::Stop
    } else {
        let x = b[start + k];
        let acc2 = (acc + (x % 128) as nat * chunk_weight(k)) % 0x1_0000_0000;
        if x < 128 {
            VarScan::Done(acc2, start + k + 1)
        } else if k + 1 == limit {
            if start + k + 1 < b.len() {
                VarScan::Overflow
            } else {
                VarScan::Stop
            }
        } else {
            varint_from(b, start, k + 1, limit, acc2)
        }
    }
}

/// A varint of 32 bits at `start`.
pub open spec fn varint32(b: Seq<u8>, start: int) -> VarScan {
    varint_from(b, start, 0, 5, 0)
}

/// A varint of 64 bits at `start`.
pub open spec fn varint64(b: Seq<u8>, start: int) -> VarScan {
    varint_from(b, start, 0, 10, 0)
}

/// The number of elements that a signed 32-bit varint count with low bits `v` gives, read
/// back as unsigned (zigzag: even values count up, odd values count down from the top).
pub open spec fn list_count(v: nat) -> nat {
    if v % 2 == 0 {
        v / 2
    } else {
        (0xFFFF_FFFFnat - v / 2) as nat
    }
}

/// `n` bytes from `pos` on.
pub open spec fn skip(b: Seq<u8>, pos: int, n: int) -> Scan {
    if 0 <= pos && pos + n <= b.len() {
        Scan::Next(pos + n)
    } else {
        Scan::Stop
    }
}

/// A varint of 32 bits, then nothing else.
pub open spec fn after_varint(v: VarScan) -> Scan {
    match v {
        VarScan::Stop => Scan::Stop,
        VarScan::Overflow => Scan::Overflow,
        VarScan::Done(_, p) => Scan::Next(p),
    }
}

/// Reads the payload of a value of tag type `ty` at `pos`.
pub open spec fn scan_value(b: Seq<u8>, pos: int, ty: u8) -> Scan
    decreases b.len() - pos, 1int, 0nat,
{
    if pos < 0 || pos > b.len() {
        Scan::Stop
    } else if ty == 1 {
        skip(b, pos, 1)
    } else if ty == 2 {
        skip(b, pos, 2)
    } else if ty == 3 {
        after_varint(varint32(b, pos))
    } else if ty == 4 {
        after_varint(varint64(b, pos))
    } else if ty == 5 {
        skip(b, pos, 4)
    } else if ty == 6 {
        skip(b, pos, 8)
    } else if ty == 8 {
        match varint32(b, pos) {
            VarScan::Stop => Scan::Stop,
            VarScan::Overflow => Scan::Overflow,
            VarScan::Done(len, p) => skip(b, p, len as int),
        }
    } else if ty == 10 {
        scan_compound(b, pos)
    } else if ty == 7 || ty == 9 || ty == 11 || ty == 12 {
        let (elem, count_at): (u8, int) = if ty == 7 {
            (1u8, pos)
        } else if ty == 11 {
            (3u8, pos)
        } else if ty == 12 {
            (4u8, pos)
        } else if pos < b.len() {
            (b[pos], pos + 1)
        } else {
            (0xFFu8, pos)
        };
        if elem > 12 {
            Scan::Stop
        } else {
            match varint32(b, count_at) {
                VarScan::Stop => Scan::Stop,
                VarScan::Overflow => Scan::Overflow,
                VarScan::Done(v, p) => if pos < p <= b.len() {
                    scan_list(b, p, elem, list_count(v))
                } else {
                    Scan::Stop
                },
            }
        }
    } else {
        Scan::Stop
    }
}

/// Reads `n` elements of tag type `ty` from `pos` on.
pub open spec fn scan_list(b: Seq<u8>, pos: int, ty: u8, n: nat) -> Scan
    decreases b.len() - pos, 2int, n,
{
    if pos < 0 || pos > b.len() {
        Scan::Stop
    } else if n == 0 {
        Scan::Next(pos)
    } else {
        match scan_value(b, pos, ty) {
            Scan::Next(p) => if pos < p <= b.len() {
                scan_list(b, p, ty, (n - 1) as nat)
            } else {
                Scan::Stop
            },
            other => other,
        }
    }
}

/// Reads the fields of a compound from `pos` on: a tag type, a name and a value each, until
/// the end tag.
pub open spec fn scan_compound(b: Seq<u8>, pos: int) -> Scan
    decreases b.len() - pos, 0int, 0nat,
{
    if pos < 0 || pos >= b.len() {
        Scan::Stop
    } else {
        let t = b[pos];
        if t > 12 {
            Scan::Stop
        } else if t == 0 {
            Scan::Next(pos + 1)
        } else {
            match varint32(b, pos + 1) {
                VarScan::Stop => Scan::Stop,
                VarScan::Overflow => Scan::Overflow,
                VarScan::Done(len, p) => match skip(b, p, len as int) {
                    Scan::Next(q) => if pos < q <= b.len() {
                        match scan_value(b, q, t) {
                            Scan::Next(r) => if q < r <= b.len() {
                                scan_compound(b, r)
                            } else {
                                Scan::Stop
                            },
                            other => other,
                        }
                    } else {
                        Scan::Stop
                    },
                    other => other,
                },
            }
        }
    }
}

/// Reads a network NBT value from the start of `b`: the tag of a compound, its name, then
/// its fields.
pub open spec fn scan_root(b: Seq<u8>) -> Scan {
    if b.len() < 1 || b[0] != 10 {
        Scan::Stop
    } else {
        match varint32(b, 1) {
            VarScan::Stop => Scan::Stop,
            VarScan::Overflow => Scan::Overflow,
            VarScan::Done(len, p) => match skip(b, p, len as int) {
                Scan::Next(q) => scan_compound(b, q),
                other => other,
            },
        }
    }
}

/// Reading a network NBT value from the start of `b` meets no varint that runs too long.
pub open spec fn net_varints_fit(b: Seq<u8>) -> bool {
    !(scan_root(b) is Overflow)
}

} // verus!

verus! {

/// How reading a varint ended, in executable form.
enum VarStep {
    Stop,
    Overflow,
    Done(u32, usize),
}

/// How reading a value ended, in executable form.
enum ScanStep {
    Stop,
    Overflow,
    Next(usize),
}

spec fn var_step_is(e: VarStep, s: VarScan) -> bool {
    match e {
        VarStep::Stop => s is Stop,
        VarStep::Overflow => s is Overflow,
        VarStep::Done(v, p) => s matches VarScan::Done(sv, sp) && sv == v && sp == p,
    }
}

spec fn scan_step_is(e: ScanStep, s: Scan) -> bool {
    match e {
        ScanStep::Stop => s is Stop,
        ScanStep::Overflow => s is Overflow,
        ScanStep::Next(p) => s matches Scan::Next(sp) && sp == p,
    }
}

proof fn lemma_varint_done(b: Seq<u8>, start: int, k: nat, limit: nat, acc: nat)
    requires
        acc < 0x1_0000_0000,
    ensures
        varint_from(b, start, k, limit, acc) matches VarScan::Done(v, p) ==> v < 0x1_0000_0000 && start + k < p <= b.len(),
    decreases limit - k,
{
    if !(k >= limit || start < 0 || start + k >= b.len()) {
        let x = b[start + k];
        let acc2 = (acc + (x % 128) as nat * chunk_weight(k)) % 0x1_0000_0000;
        if x >= 128 && k + 1 != limit {
            lemma_varint_done(b, start, k + 1, limit, acc2);
        }
    }
}

fn read_varint(b: &[u8], start: usize, limit: usize) -> (r: VarStep)
    requires
        1 <= limit <= 10,
    ensures
        var_step_is(r, varint_from(b@, start as int, 0, limit as nat, 0)),
        varint_from(b@, start as int, 0, limit as nat, 0) matches VarScan::Done(v, p) ==> v < 0x1_0000_0000 && start < p <= b@.len(),
{
    proof {
        lemma_varint_done(b@, start as int, 0, limit as nat, 0);
    }
    let len = b.len();
    let mut k: usize = 0;
    let mut acc: u64 = 0;
    while k < limit
        invariant
            1 <= limit <= 10,
            len == b@.len(),
            k < limit,
            acc < 0x1_0000_0000,
            varint_from(b@, start as int, 0, limit as nat, 0) == varint_from(b@, start as int, k as nat, limit as nat, acc as nat),
        decreases limit - k,
    {
        if start >= len || k >= len - start {
            return VarStep::Stop;
        }
        let x = b[start + k];
        let w: u64 = if k == 0 {
            1
        } else if k == 1 {
            128
        } else if k == 2 {
            16384
        } else if k == 3 {
            2097152
        } else if k == 4 {
            268435456
        } else {
            0
        };
        assert(w == chunk_weight(k as nat));
        let low = (x % 128) as u64;
        assert(low * w <= 127 * 268435456) by (nonlinear_arith)
            requires
                low <= 127,
                w <= 268435456,
        ;
        let acc2 = (acc + low * w) % 0x1_0000_0000;
        assert(acc2 as nat == (acc as nat + (x % 128) as nat * chunk_weight(k as nat)) % 0x1_0000_0000);
        if x < 128 {
            return VarStep::Done(acc2 as u32, start + k + 1);
        }
        if k + 1 == limit {
            if k + 1 < len - start {
                return VarStep::Overflow;
            } else {
                return VarStep::Stop;
            }
        }
        acc = acc2;
        k = k + 1;
    }
    VarStep::Stop
}

fn count_of(v: u32) -> (r: u32)
    ensures
        r == list_count(v as nat),
{
    if v % 2 == 0 {
        v / 2
    } else {
        0xFFFF_FFFFu32 - v / 2
    }
}

fn skip_bytes(b: &[u8], pos: usize, n: usize) -> (r: ScanStep)
    ensures
        scan_step_is(r, skip(b@, pos as int, n as int)),
        r matches ScanStep::Next(p) ==> p <= b@.len(),
{
    if pos <= b.len() && n <= b.len() - pos {
        ScanStep::Next(pos + n)
    } else {
        ScanStep::Stop
    }
}

fn scan_value_exec(b: &[u8], pos: usize, ty: u8) -> (r: ScanStep)
    ensures
        scan_step_is(r, scan_value(b@, pos as int, ty)),
        r matches ScanStep::Next(p) ==> p <= b@.len(),
    decreases b@.len() - pos, 1int, 0nat,
{
    let len = b.len();
    if pos > len {
        return ScanStep::Stop;
    }
    if ty == 1 {
        skip_bytes(b, pos, 1)
    } else if ty == 2 {
        skip_bytes(b, pos, 2)
    } else if ty == 3 || ty == 4 {
        let limit: usize = if ty == 3 {
            5
        } else {
            10
        };
        match read_varint(b, pos, limit) {
            VarStep::Stop => ScanStep::Stop,
            VarStep::Overflow => ScanStep::Overflow,
            VarStep::Done(_, p) => ScanStep::Next(p),
        }
    } else if ty == 5 {
        skip_bytes(b, pos, 4)
    } else if ty == 6 {
        skip_bytes(b, pos, 8)
    } else if ty == 8 {
        match read_varint(b, pos, 5) {
            VarStep::Stop => ScanStep::Stop,
            VarStep::Overflow => ScanStep::Overflow,
            VarStep::Done(n, p) => skip_bytes(b, p, n as usize),
        }
    } else if ty == 10 {
        scan_compound_exec(b, pos)
    } else if ty == 7 || ty == 9 || ty == 11 || ty == 12 {
        let (elem, count_at): (u8, usize) = if ty == 7 {
            (1u8, pos)
        } else if ty == 11 {
            (3u8, pos)
        } else if ty == 12 {
            (4u8, pos)
        } else if pos < len {
            (b[pos], pos + 1)
        } else {
            (0xFFu8, pos)
        };
        if elem > 12 {
            return ScanStep::Stop;
        }
        match read_varint(b, count_at, 5) {
            VarStep::Stop => ScanStep::Stop,
            VarStep::Overflow => ScanStep::Overflow,
            VarStep::Done(v, p) => {
                if pos < p && p <= len {
                    scan_list_exec(b, p, elem, count_of(v))
                } else {
                    ScanStep::Stop
                }
            },
        }
    } else {
        ScanStep::Stop
    }
}

fn scan_list_exec(b: &[u8], pos: usize, ty: u8, n: u32) -> (r: ScanStep)
    requires
        pos <= b@.len(),
    ensures
        scan_step_is(r, scan_list(b@, pos as int, ty, n as nat)),
        r matches ScanStep::Next(p) ==> p <= b@.len(),
    decreases b@.len() - pos, 2int, n as nat,
{
    let len = b.len();
    let mut at = pos;
    let mut left = n;
    while left > 0
        invariant
            len == b@.len(),
            pos <= at <= len,
            left <= n,
            scan_list(b@, pos as int, ty, n as nat) == scan_list(b@, at as int, ty, left as nat),
        decreases len - at, left,
    {
        match scan_value_exec(b, at, ty) {
            ScanStep::Next(p) => {
                if at < p && p <= len {
                    at = p;
                    left = left - 1;
                } else {
                    return ScanStep::Stop;
                }
            },
            ScanStep::Stop => {
                return ScanStep::Stop;
            },
            ScanStep::Overflow => {
                return ScanStep::Overflow;
            },
        }
    }
    ScanStep::Next(at)
}

fn scan_compound_exec(b: &[u8], pos: usize) -> (r: ScanStep)
    ensures
        scan_step_is(r, scan_compound(b@, pos as int)),
        r matches ScanStep::Next(p) ==> p <= b@.len(),
    decreases b@.len() - pos, 0int, 0nat,
{
    let len = b.len();
    let mut at = pos;
    loop
        invariant
            len == b@.len(),
            pos <= at,
            scan_compound(b@, pos as int) == scan_compound(b@, at as int),
        decreases len - at,
    {
        if at >= len {
            return ScanStep::Stop;
        }
        let t = b[at];
        if t > 12 {
            return ScanStep::Stop;
        }
        if t == 0 {
            return ScanStep::Next(at + 1);
        }
        match read_varint(b, at + 1, 5) {
            VarStep::Stop => {
                return ScanStep::Stop;
            },
            VarStep::Overflow => {
                return ScanStep::Overflow;
            },
            VarStep::Done(name_len, p) => {
                match skip_bytes(b, p, name_len as usize) {
                    ScanStep::Next(q) => {
                        if !(at < q && q <= len) {
                            return ScanStep::Stop;
                        }
                        match scan_value_exec(b, q, t) {
                            ScanStep::Next(r) => {
                                if q < r && r <= len {
                                    at = r;
                                } else {
                                    return ScanStep::Stop;
                                }
                            },
                            ScanStep::Stop => {
                                return ScanStep::Stop;
                            },
                            ScanStep::Overflow => {
                                return ScanStep::Overflow;
                            },
                        }
                    },
                    ScanStep::Stop => {
                        return ScanStep::Stop;
                    },
                    ScanStep::Overflow => {
                        return ScanStep::Overflow;
                    },
                }
            },
        }
    }
}

/// Whether reading a network NBT value from the start of `b` meets no varint that runs
/// too long.
pub fn net_varints_fit_in(b: &[u8]) -> (r: bool)
    ensures
        r == net_varints_fit(b@),
{
    if b.len() < 1 || b[0] != 10 {
        return true;
    }
    let r = match read_varint(b, 1, 5) {
        VarStep::Stop => ScanStep::Stop,
        VarStep::Overflow => ScanStep::Overflow,
        VarStep::Done(len, p) => match skip_bytes(b, p, len as usize) {
            ScanStep::Next(q) => scan_compound_exec(b, q),
            ScanStep::Stop => ScanStep::Stop,
            ScanStep::Overflow => ScanStep::Overflow,
        },
    };
    match r {
        ScanStep::Overflow => false,
        _ => true,
    }
}

} // verus!
