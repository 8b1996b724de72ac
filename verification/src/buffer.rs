//! Byte cursors over a bounded message buffer.
//!
//! `BufferParser` reads big-endian integers and compressed domain names;
//! `BufferBuilder` writes big-endian integers and uncompressed names.
//! Every operation reports `EndOfBuffer` instead of reading or writing
//! out of range.

use vstd::prelude::*;

use crate::errors::DnsError;

verus! {

/// A length byte with both top bits set marks a compression pointer.
pub const JUMP_MASK: u8 = 0xC0;

/// How many compression jumps a single name decode may follow.
pub const MAX_JUMPS: u32 = 5;

/// Value of a big-endian byte string.
pub open spec fn be_val(s: Seq<u8>) -> nat
    decreases s.len(),
{
    if s.len() == 0 {
        0
    } else {
        (256 * be_val(s.drop_last()) + s.last()) as nat
    }
}

/// The `n`-byte big-endian encoding of `v % 256^n`.
pub open spec fn be_bytes(v: nat, n: nat) -> Seq<u8>
    decreases n,
{
    if n == 0 {
        Seq::empty()
    } else {
        be_bytes(v / 256, (n - 1) as nat) + seq![(v % 256) as u8]
    }
}

/// 256 raised to `n`.
pub open spec fn pow256(n: nat) -> nat
    decreases n,
{
    if n == 0 {
        1
    } else {
        256 * pow256((n - 1) as nat)
    }
}

pub proof fn lemma_be_val_bound(s: Seq<u8>)
    ensures
        be_val(s) < pow256(s.len()),
    decreases s.len(),
{
    if s.len() > 0 {
        lemma_be_val_bound(s.drop_last());
    }
}

pub proof fn lemma_be_bytes_len(v: nat, n: nat)
    ensures
        be_bytes(v, n).len() == n,
    decreases n,
{
    if n > 0 {
        lemma_be_bytes_len(v / 256, (n - 1) as nat);
    }
}

/// Writing a value and reading it back is the identity, below `256^n`.
pub proof fn lemma_be_round_trip(v: nat, n: nat)
    requires
        v < pow256(n),
    ensures
        be_bytes(v, n).len() == n,
        be_val(be_bytes(v, n)) == v,
    decreases n,
{
    lemma_be_bytes_len(v, n);
    if n > 0 {
        assert(v / 256 < pow256((n - 1) as nat)) by (nonlinear_arith)
            requires
                v < pow256(n),
                pow256(n) == 256 * pow256((n - 1) as nat),
        ;
        lemma_be_round_trip(v / 256, (n - 1) as nat);
        let s = be_bytes(v, n);
        assert(s.drop_last() =~= be_bytes(v / 256, (n - 1) as nat));
        assert(256 * (v / 256) + v % 256 == v) by (nonlinear_arith);
    }
}

/// Reads over a borrowed snapshot of a message buffer.
pub struct BufferParser {
    pub buf_view: Vec<u8>,
    pub position: usize,
}

impl BufferParser {
    /// Cursor over a copy of `buf_view`, starting at offset zero.
    pub fn new(buf_view: &[u8]) -> (r: Self)
        ensures
            r.buf_view@ == buf_view@,
            r.position == 0,
    {
        BufferParser { buf_view: vstd::slice::slice_to_vec(buf_view), position: 0 }
    }

    pub fn seek(&mut self, pos: usize)
        ensures
            final(self).buf_view == old(self).buf_view,
            final(self).position == pos,
    {
        self.position = pos;
    }

    pub fn get_pos(&self) -> (r: usize)
        ensures
            r == self.position,
    {
        self.position
    }

    /// The byte at `pos`, without advancing.
    pub fn get(&self, pos: usize) -> (r: Result<u8, DnsError>)
        ensures
            pos < self.buf_view@.len() ==> r == Ok::<u8, DnsError>(self.buf_view@[pos as int]),
            pos >= self.buf_view@.len() ==> r == Err::<u8, DnsError>(DnsError::EndOfBuffer),
    {
        if pos >= self.buf_view.len() {
            return Err(DnsError::EndOfBuffer);
        }
        Ok(self.buf_view[pos])
    }

    /// The big-endian `u16` at `pos`, without advancing.
    pub fn get_u16(&self, pos: usize) -> (r: Result<u16, DnsError>)
        ensures
            pos + 2 <= self.buf_view@.len() ==> {
                &&& r is Ok
                &&& r->Ok_0 == be_val(self.buf_view@.subrange(pos as int, pos + 2))
            },
            pos + 2 > self.buf_view@.len() ==> r == Err::<u16, DnsError>(DnsError::EndOfBuffer),
    {
        if self.buf_view.len() < 2 || pos > self.buf_view.len() - 2 {
            return Err(DnsError::EndOfBuffer);
        }
        let b0 = self.buf_view[pos];
        let b1 = self.buf_view[pos + 1];
        let v: u16 = (b0 as u16) * 256 + (b1 as u16);
        proof {
            reveal_with_fuel(be_val, 3);
            let s = self.buf_view@.subrange(pos as int, pos + 2);
            assert(s.drop_last() =~= seq![b0]);
            assert(seq![b0].drop_last() =~= Seq::<u8>::empty());
        }
        Ok(v)
    }

    /// The big-endian `u32` at `pos`, without advancing.
    pub fn get_u32(&self, pos: usize) -> (r: Result<u32, DnsError>)
        ensures
            pos + 4 <= self.buf_view@.len() ==> {
                &&& r is Ok
                &&& r->Ok_0 == be_val(self.buf_view@.subrange(pos as int, pos + 4))
            },
            pos + 4 > self.buf_view@.len() ==> r == Err::<u32, DnsError>(DnsError::EndOfBuffer),
    {
        if self.buf_view.len() < 4 || pos > self.buf_view.len() - 4 {
            return Err(DnsError::EndOfBuffer);
        }
        let ghost full = self.buf_view@.subrange(pos as int, pos + 4);
        let mut v: u32 = 0;
        let mut i: usize = 0;
        while i < 4
            invariant
                i <= 4,
                pos + 4 <= self.buf_view@.len() <= usize::MAX,
                full == self.buf_view@.subrange(pos as int, pos + 4),
                v == be_val(full.take(i as int)),
            decreases 4 - i,
        {
            proof {
                lemma_be_val_bound(full.take(i as int));
                lemma_pow256_mono((i + 1) as nat, 4);
                lemma_pow256_16();
                assert(256 * be_val(full.take(i as int)) + full[i as int] < pow256((i + 1) as nat))
                    by (nonlinear_arith)
                    requires
                        be_val(full.take(i as int)) < pow256(i as nat),
                        full[i as int] < 256,
                        pow256((i + 1) as nat) == 256 * pow256(i as nat),
                ;
                assert(full.take(i + 1).drop_last() =~= full.take(i as int));
            }
            v = v * 256 + (self.buf_view[pos + i] as u32);
            i = i + 1;
        }
        proof {
            assert(full.take(4) =~= full);
        }
        Ok(v)
    }

    /// The big-endian `u128` at `pos`, without advancing.
    pub fn get_u128(&self, pos: usize) -> (r: Result<u128, DnsError>)
        ensures
            pos + 16 <= self.buf_view@.len() ==> {
                &&& r is Ok
                &&& r->Ok_0 == be_val(self.buf_view@.subrange(pos as int, pos + 16))
            },
            pos + 16 > self.buf_view@.len() ==> r == Err::<u128, DnsError>(DnsError::EndOfBuffer),
    {
        if self.buf_view.len() < 16 || pos > self.buf_view.len() - 16 {
            return Err(DnsError::EndOfBuffer);
        }
        let ghost full = self.buf_view@.subrange(pos as int, pos + 16);
        let mut v: u128 = 0;
        let mut i: usize = 0;
        while i < 16
            invariant
                i <= 16,
                pos + 16 <= self.buf_view@.len() <= usize::MAX,
                full == self.buf_view@.subrange(pos as int, pos + 16),
                v == be_val(full.take(i as int)),
            decreases 16 - i,
        {
            proof {
                lemma_be_val_bound(full.take(i as int));
                lemma_pow256_mono((i + 1) as nat, 16);
                lemma_pow256_16();
                assert(256 * be_val(full.take(i as int)) + full[i as int] < pow256((i + 1) as nat))
                    by (nonlinear_arith)
                    requires
                        be_val(full.take(i as int)) < pow256(i as nat),
                        full[i as int] < 256,
                        pow256((i + 1) as nat) == 256 * pow256(i as nat),
                ;
                assert(full.take(i + 1).drop_last() =~= full.take(i as int));
            }
            v = v * 256 + (self.buf_view[pos + i] as u128);
            i = i + 1;
        }
        proof {
            assert(full.take(16) =~= full);
        }
        Ok(v)
    }

    /// The `len` bytes starting at `begin`; the range must end strictly
    /// before the last buffer byte.
    pub fn get_range(&self, begin: usize, len: usize) -> (r: Result<Vec<u8>, DnsError>)
        ensures
            begin + len < self.buf_view@.len() ==> {
                &&& r is Ok
                &&& r->Ok_0@ == self.buf_view@.subrange(begin as int, begin + len)
            },
            begin + len >= self.buf_view@.len() ==> r == Err::<Vec<u8>, DnsError>(
                DnsError::EndOfBuffer,
            ),
    {
        if begin >= self.buf_view.len() || len >= self.buf_view.len() - begin {
            return Err(DnsError::EndOfBuffer);
        }
        let mut out: Vec<u8> = Vec::new();
        let mut i: usize = 0;
        while i < len
            invariant
                i <= len,
                begin + len < self.buf_view@.len() <= usize::MAX,
                out@ == self.buf_view@.subrange(begin as int, begin + i),
            decreases len - i,
        {
            out.push(self.buf_view[begin + i]);
            proof {
                assert(out@ =~= self.buf_view@.subrange(begin as int, begin + i + 1));
            }
            i = i + 1;
        }
        Ok(out)
    }

    /// Reads the byte at the cursor and advances one byte.
    pub fn read(&mut self) -> (r: Result<u8, DnsError>)
        ensures
            final(self).buf_view == old(self).buf_view,
            old(self).position + 1 <= old(self).buf_view@.len() ==> {
                &&& r is Ok
                &&& r->Ok_0 == old(self).buf_view@[old(self).position as int]
                &&& final(self).position == old(self).position + 1
            },
            old(self).position + 1 > old(self).buf_view@.len() ==> {
                &&& r == Err::<u8, DnsError>(DnsError::EndOfBuffer)
                &&& *final(self) == *old(self)
            },
    {
        if self.position >= self.buf_view.len() {
            return Err(DnsError::EndOfBuffer);
        }
        let result = self.get(self.position)?;
        self.position = self.position + 1;
        Ok(result)
    }

    /// Reads a big-endian `u16` at the cursor and advances two bytes.
    pub fn read_u16(&mut self) -> (r: Result<u16, DnsError>)
        ensures
            final(self).buf_view == old(self).buf_view,
            old(self).position + 2 <= old(self).buf_view@.len() ==> {
                &&& r is Ok
                &&& r->Ok_0 == be_val(
                    old(self).buf_view@.subrange(
                        old(self).position as int,
                        old(self).position + 2,
                    ),
                )
                &&& final(self).position == old(self).position + 2
            },
            old(self).position + 2 > old(self).buf_view@.len() ==> {
                &&& r == Err::<u16, DnsError>(DnsError::EndOfBuffer)
                &&& *final(self) == *old(self)
            },
    {
        if self.buf_view.len() < 2 || self.position > self.buf_view.len() - 2 {
            return Err(DnsError::EndOfBuffer);
        }
        let result = self.get_u16(self.position)?;
        self.position = self.position + 2;
        Ok(result)
    }

    /// Reads a big-endian `u32` at the cursor and advances four bytes.
    pub fn read_u32(&mut self) -> (r: Result<u32, DnsError>)
        ensures
            final(self).buf_view == old(self).buf_view,
            old(self).position + 4 <= old(self).buf_view@.len() ==> {
                &&& r is Ok
                &&& r->Ok_0 == be_val(
                    old(self).buf_view@.subrange(
                        old(self).position as int,
                        old(self).position + 4,
                    ),
                )
                &&& final(self).position == old(self).position + 4
            },
            old(self).position + 4 > old(self).buf_view@.len() ==> {
                &&& r == Err::<u32, DnsError>(DnsError::EndOfBuffer)
                &&& *final(self) == *old(self)
            },
    {
        if self.buf_view.len() < 4 || self.position > self.buf_view.len() - 4 {
            return Err(DnsError::EndOfBuffer);
        }
        let result = self.get_u32(self.position)?;
        self.position = self.position + 4;
        Ok(result)
    }

    /// Reads a big-endian `u128` at the cursor and advances sixteen bytes.
    pub fn read_u128(&mut self) -> (r: Result<u128, DnsError>)
        ensures
            final(self).buf_view == old(self).buf_view,
            old(self).position + 16 <= old(self).buf_view@.len() ==> {
                &&& r is Ok
                &&& r->Ok_0 == be_val(
                    old(self).buf_view@.subrange(
                        old(self).position as int,
                        old(self).position + 16,
                    ),
                )
                &&& final(self).position == old(self).position + 16
            },
            old(self).position + 16 > old(self).buf_view@.len() ==> {
                &&& r == Err::<u128, DnsError>(DnsError::EndOfBuffer)
                &&& *final(self) == *old(self)
            },
    {
        if self.buf_view.len() < 16 || self.position > self.buf_view.len() - 16 {
            return Err(DnsError::EndOfBuffer);
        }
        let result = self.get_u128(self.position)?;
        self.position = self.position + 16;
        Ok(result)
    }
    /// Decodes a compressed domain name at the cursor.
    ///
    /// Labels are appended lowercased and joined by `.` with no trailing
    /// dot; the empty name decodes to the empty string.  Label bytes
    /// outside ASCII decode as `?` (see `name_byte`), so every name this
    /// hands out is ASCII.  The cursor moves past the inline name, or
    /// past the first pointer when the name jumps.  On an error the
    /// cursor is left where it was.
    #[verifier::rlimit(60)]
    pub fn read_name(&mut self) -> (r: Result<String, DnsError>)
        ensures
            final(self).buf_view == old(self).buf_view,
            (match r {
                Ok(name) => {
                    &&& spec_read_name_at(old(self).buf_view@, old(self).position as int, 0) is Ok
                    &&& name@ == chars_of_bytes(
                        spec_read_name_at(old(self).buf_view@, old(self).position as int, 0)->Ok_0,
                    )
                    &&& final(self).position == spec_name_end(
                        old(self).buf_view@,
                        old(self).position as int,
                    )
                },
                Err(e) => {
                    &&& spec_read_name_at(old(self).buf_view@, old(self).position as int, 0)
                        == Err::<Seq<u8>, DnsError>(e)
                    &&& final(self).position == old(self).position
                },
            }),
    {
        let ghost buf = self.buf_view@;
        let ghost pos0 = self.position as int;
        let buf_len = self.buf_view.len();
        let mut name_bytes: Vec<u8> = Vec::new();
        let mut local_pos: usize = self.position;
        let mut jump_counter: u32 = 0;
        let mut first_jump_end: usize = 0;
        loop
            invariant
                self.buf_view == old(self).buf_view,
                self.position == old(self).position,
                self.buf_view@ == buf,
                self.position == pos0,
                buf.len() == buf_len <= usize::MAX,
                jump_counter <= 6,
                name_bytes@.len() == 0 || name_bytes@.last() == 46u8,
                forall|i: int| 0 <= i < name_bytes@.len() ==> name_bytes@[i] < 128,
                (match spec_read_name_at(buf, local_pos as int, jump_counter as int) {
                    Err(e) => spec_read_name_at(buf, pos0, 0) == Err::<Seq<u8>, DnsError>(e),
                    Ok(rest) => spec_read_name_at(buf, pos0, 0) == Ok::<Seq<u8>, DnsError>(
                        if name_bytes@.len() == 0 {
                            rest
                        } else if rest.len() == 0 {
                            name_bytes@.drop_last()
                        } else {
                            name_bytes@.drop_last() + seq![46u8] + rest
                        },
                    ),
                }),
                jump_counter == 0 ==> spec_name_end(buf, pos0) == spec_name_end(
                    buf,
                    local_pos as int,
                ),
                jump_counter > 0 ==> spec_name_end(buf, pos0) == first_jump_end,
            decreases 6 - jump_counter, rem_len(buf.len() as int, local_pos as int),
        {
            if jump_counter > MAX_JUMPS {
                return Err(DnsError::TooManyJumps);
            }
            let len = match self.get(local_pos) {
                Ok(b) => b,
                Err(e) => {
                    return Err(e);
                },
            };
            if len & JUMP_MASK == JUMP_MASK {
                let word = match self.get_u16(local_pos) {
                    Ok(w) => w,
                    Err(e) => {
                        return Err(e);
                    },
                };
                if jump_counter == 0 {
                    first_jump_end = local_pos + 2;
                }
                let offset = word & 0x3FFF;
                proof {
                    assert(word & 0x3FFF == word % 0x4000) by (bit_vector);
                }
                local_pos = offset as usize;
                jump_counter = jump_counter + 1;
            } else {
                local_pos = local_pos + 1;
                if len == 0 {
                    proof {
                        let lp = local_pos - 1;
                        assert(spec_read_name_at(buf, lp, jump_counter as int)
                            == Ok::<Seq<u8>, DnsError>(Seq::empty()));
                        assert(spec_name_end(buf, lp) == lp + 1);
                    }
                    if jump_counter == 0 {
                        self.position = local_pos;
                    } else {
                        self.position = first_jump_end;
                    }
                    let ghost whole = spec_read_name_at(buf, pos0, 0)->Ok_0;
                    if name_bytes.len() > 0 {
                        name_bytes.pop();
                        proof {
                            assert(name_bytes@ =~= whole);
                        }
                    } else {
                        proof {
                            assert(name_bytes@ =~= whole);
                        }
                    }
                    let name = ascii_to_string(name_bytes);
                    return Ok(name);
                }
                let str_buffer = match self.get_range(local_pos, len as usize) {
                    Ok(v) => v,
                    Err(e) => {
                        return Err(e);
                    },
                };
                let ghost acc_before = name_bytes@;
                let ghost lab = buf.subrange(local_pos as int, local_pos + len).map_values(
                    |b: u8| name_byte(b),
                );
                let mut j: usize = 0;
                while j < str_buffer.len()
                    invariant
                        j <= str_buffer@.len(),
                        str_buffer@ == buf.subrange(local_pos as int, local_pos + len),
                        lab == buf.subrange(local_pos as int, local_pos + len).map_values(
                            |b: u8| name_byte(b),
                        ),
                        name_bytes@ == acc_before + lab.take(j as int),
                        forall|i: int| 0 <= i < acc_before.len() ==> acc_before[i] < 128,
                        forall|i: int| 0 <= i < name_bytes@.len() ==> name_bytes@[i] < 128,
                    decreases str_buffer@.len() - j,
                {
                    let b = str_buffer[j];
                    let nb = if b >= 128 {
                        63
                    } else if b >= 65 && b <= 90 {
                        b + 32
                    } else {
                        b
                    };
                    name_bytes.push(nb);
                    proof {
                        assert(name_bytes@ =~= acc_before + lab.take(j + 1));
                    }
                    j = j + 1;
                }
                name_bytes.push(46);
                proof {
                    assert(lab.take(lab.len() as int) =~= lab);
                }
                local_pos = local_pos + len as usize;
                proof {
                    let lp0 = (local_pos - 1 - len as int);
                    let jc = jump_counter as int;
                    assert(buf[lp0] == len);
                    match spec_read_name_at(buf, local_pos as int, jc) {
                        Err(e) => {
                            assert(spec_read_name_at(buf, lp0, jc) == Err::<Seq<u8>, DnsError>(e));
                        },
                        Ok(rest) => {
                            if rest.len() == 0 {
                                assert(spec_read_name_at(buf, lp0, jc) == Ok::<Seq<u8>, DnsError>(
                                    lab,
                                ));
                                assert(name_bytes@.drop_last() =~= acc_before + lab);
                                if acc_before.len() == 0 {
                                    assert(acc_before + lab =~= lab);
                                } else {
                                    assert(acc_before + lab =~= acc_before.drop_last() + seq![46u8]
                                        + lab);
                                }
                            } else {
                                assert(spec_read_name_at(buf, lp0, jc) == Ok::<Seq<u8>, DnsError>(
                                    lab + seq![46u8] + rest,
                                ));
                                assert(name_bytes@.drop_last() + seq![46u8] + rest =~= acc_before
                                    + (lab + seq![46u8] + rest));
                                if acc_before.len() == 0 {
                                    assert(acc_before + (lab + seq![46u8] + rest) =~= lab
                                        + seq![46u8] + rest);
                                } else {
                                    assert(acc_before + (lab + seq![46u8] + rest) =~=
                                        acc_before.drop_last() + seq![46u8] + (lab + seq![46u8]
                                        + rest));
                                }
                            }
                        },
                    }
                }
            }
        }
    }

}

pub proof fn lemma_pow256_mono(a: nat, b: nat)
    requires
        a <= b,
    ensures
        pow256(a) <= pow256(b),
    decreases b,
{
    if a < b {
        lemma_pow256_mono(a, (b - 1) as nat);
    }
}

pub proof fn lemma_pow256_pos(n: nat)
    ensures
        pow256(n) >= 1,
{
    lemma_pow256_mono(0, n);
}

pub proof fn lemma_pow256_16()
    ensures
        pow256(2) == 0x10000,
        pow256(4) == 0x100000000,
        pow256(16) == 0x100000000000000000000000000000000,
{
    reveal_with_fuel(pow256, 17);
}

/// Writes into an owned message buffer of fixed length.
pub struct BufferBuilder {
    pub buf_view: Vec<u8>,
    pub position: usize,
}

impl BufferBuilder {
    /// Cursor over `buf_view`, starting at offset zero.
    pub fn new(buf_view: Vec<u8>) -> (r: Self)
        ensures
            r.buf_view@ == buf_view@,
            r.position == 0,
    {
        BufferBuilder { buf_view, position: 0 }
    }

    pub fn seek(&mut self, pos: usize)
        ensures
            final(self).buf_view == old(self).buf_view,
            final(self).position == pos,
    {
        self.position = pos;
    }

    pub fn get_pos(&self) -> (r: usize)
        ensures
            r == self.position,
    {
        self.position
    }

    /// Hands the finished buffer back.
    pub fn into_buf(self) -> (r: Vec<u8>)
        ensures
            r == self.buf_view,
    {
        self.buf_view
    }

    /// Writes one byte at the cursor.
    pub fn write(&mut self, val: u8) -> (r: Result<(), DnsError>)
        ensures
            old(self).position + 1 <= old(self).buf_view@.len() ==> {
                &&& r is Ok
                &&& final(self).buf_view@ == old(self).buf_view@.update(
                    old(self).position as int,
                    val,
                )
                &&& final(self).position == old(self).position + 1
            },
            old(self).position + 1 > old(self).buf_view@.len() ==> {
                &&& r == Err::<(), DnsError>(DnsError::EndOfBuffer)
                &&& *final(self) == *old(self)
            },
    {
        if self.position >= self.buf_view.len() {
            return Err(DnsError::EndOfBuffer);
        }
        self.buf_view.set(self.position, val);
        self.position = self.position + 1;
        Ok(())
    }

    /// Writes a big-endian `u16` at the cursor.
    pub fn write_u16(&mut self, val: u16) -> (r: Result<(), DnsError>)
        ensures
            old(self).position + 2 <= old(self).buf_view@.len() ==> {
                &&& r is Ok
                &&& final(self).buf_view@ == splice(
                    old(self).buf_view@,
                    old(self).position as int,
                    be_bytes(val as nat, 2),
                )
                &&& final(self).position == old(self).position + 2
            },
            old(self).position + 2 > old(self).buf_view@.len() ==> {
                &&& r == Err::<(), DnsError>(DnsError::EndOfBuffer)
                &&& *final(self) == *old(self)
            },
    {
        if self.buf_view.len() < 2 || self.position > self.buf_view.len() - 2 {
            return Err(DnsError::EndOfBuffer);
        }
        let ghost pos = self.position as int;
        let ghost before = self.buf_view@;
        self.buf_view.set(self.position, (val / 256) as u8);
        self.buf_view.set(self.position + 1, (val % 256) as u8);
        self.position = self.position + 2;
        proof {
            reveal_with_fuel(be_bytes, 3);
            lemma_be_bytes_len(val as nat, 2);
            assert(be_bytes(val as nat, 2) =~= seq![(val / 256) as u8, (val % 256) as u8]);
            assert(self.buf_view@ =~= splice(before, pos, be_bytes(val as nat, 2)));
        }
        Ok(())
    }

    /// Backpatches a big-endian `u16` at `pos` without moving the cursor.
    pub fn set_u16(&mut self, val: u16, pos: usize) -> (r: Result<(), DnsError>)
        ensures
            pos + 2 <= old(self).buf_view@.len() ==> {
                &&& r is Ok
                &&& final(self).buf_view@ == splice(
                    old(self).buf_view@,
                    pos as int,
                    be_bytes(val as nat, 2),
                )
                &&& final(self).position == old(self).position
            },
            pos + 2 > old(self).buf_view@.len() ==> {
                &&& r == Err::<(), DnsError>(DnsError::EndOfBuffer)
                &&& *final(self) == *old(self)
            },
    {
        if self.buf_view.len() < 2 || pos > self.buf_view.len() - 2 {
            return Err(DnsError::EndOfBuffer);
        }
        let ghost before = self.buf_view@;
        self.buf_view.set(pos, (val / 256) as u8);
        self.buf_view.set(pos + 1, (val % 256) as u8);
        proof {
            reveal_with_fuel(be_bytes, 3);
            lemma_be_bytes_len(val as nat, 2);
            assert(be_bytes(val as nat, 2) =~= seq![(val / 256) as u8, (val % 256) as u8]);
            assert(self.buf_view@ =~= splice(before, pos as int, be_bytes(val as nat, 2)));
        }
        Ok(())
    }

    /// Writes a big-endian `u32` at the cursor.
    pub fn write_u32(&mut self, val: u32) -> (r: Result<(), DnsError>)
        ensures
            old(self).position + 4 <= old(self).buf_view@.len() ==> {
                &&& r is Ok
                &&& final(self).buf_view@ == splice(
                    old(self).buf_view@,
                    old(self).position as int,
                    be_bytes(val as nat, 4),
                )
                &&& final(self).position == old(self).position + 4
            },
            old(self).position + 4 > old(self).buf_view@.len() ==> {
                &&& r == Err::<(), DnsError>(DnsError::EndOfBuffer)
                &&& *final(self) == *old(self)
            },
    {
        if self.buf_view.len() < 4 || self.position > self.buf_view.len() - 4 {
            return Err(DnsError::EndOfBuffer);
        }
        let ghost pos = self.position as int;
        let ghost before = self.buf_view@;
        let b0 = (val / 0x1000000) as u8;
        let b1 = ((val / 0x10000) % 256) as u8;
        let b2 = ((val / 256) % 256) as u8;
        let b3 = (val % 256) as u8;
        self.buf_view.set(self.position, b0);
        self.buf_view.set(self.position + 1, b1);
        self.buf_view.set(self.position + 2, b2);
        self.buf_view.set(self.position + 3, b3);
        self.position = self.position + 4;
        proof {
            reveal_with_fuel(be_bytes, 5);
            lemma_be_bytes_len(val as nat, 4);
            assert(be_bytes(val as nat, 4) =~= seq![b0, b1, b2, b3]);
            assert(self.buf_view@ =~= splice(before, pos, be_bytes(val as nat, 4)));
        }
        Ok(())
    }

    /// Writes a big-endian `u128` at the cursor.
    pub fn write_u128(&mut self, val: u128) -> (r: Result<(), DnsError>)
        ensures
            old(self).position + 16 <= old(self).buf_view@.len() ==> {
                &&& r is Ok
                &&& final(self).buf_view@ == splice(
                    old(self).buf_view@,
                    old(self).position as int,
                    be_bytes(val as nat, 16),
                )
                &&& final(self).position == old(self).position + 16
            },
            old(self).position + 16 > old(self).buf_view@.len() ==> {
                &&& r == Err::<(), DnsError>(DnsError::EndOfBuffer)
                &&& *final(self) == *old(self)
            },
    {
        if self.buf_view.len() < 16 || self.position > self.buf_view.len() - 16 {
            return Err(DnsError::EndOfBuffer);
        }
        let ghost pos = self.position as int;
        let ghost before = self.buf_view@;
        // Extract the bytes least-significant first, then lay them down
        // most-significant first.
        proof {
            assert(val as nat / pow256(0) == val as nat) by (nonlinear_arith)
                requires
                    pow256(0) == 1,
            ;
        }
        let mut le: Vec<u8> = Vec::new();
        let mut rem: u128 = val;
        let mut k: usize = 0;
        while k < 16
            invariant
                k <= 16,
                le@.len() == k,
                rem == val as nat / pow256(k as nat),
                forall|j: int| 0 <= j < k ==> le@[j] == ((val as nat / pow256(j as nat)) % 256) as u8,
            decreases 16 - k,
        {
            le.push((rem % 256) as u8);
            proof {
                lemma_pow256_pos(k as nat);
                assert(val as nat / pow256(k as nat) / 256 == val as nat / pow256((k + 1) as nat))
                    by (nonlinear_arith)
                    requires
                        pow256((k + 1) as nat) == 256 * pow256(k as nat),
                        pow256(k as nat) > 0,
                ;
            }
            rem = rem / 256;
            k = k + 1;
        }
        let mut i: usize = 0;
        while i < 16
            invariant
                i <= 16,
                pos + 16 <= self.buf_view@.len() <= usize::MAX,
                self.position == pos,
                le@.len() == 16,
                forall|j: int| 0 <= j < 16 ==> le@[j] == ((val as nat / pow256(j as nat)) % 256) as u8,
                self.buf_view@.len() == before.len(),
                forall|j: int| 0 <= j < before.len() && !(pos <= j < pos + i)
                    ==> self.buf_view@[j] == before[j],
                forall|j: int| 0 <= j < i ==> self.buf_view@[pos + j] == be_bytes(val as nat, 16)[j],
            decreases 16 - i,
        {
            proof {
                lemma_be_bytes_step(val as nat, 16, (15 - i) as nat);
            }
            self.buf_view.set(self.position + i, le[15 - i]);
            i = i + 1;
        }
        self.position = self.position + 16;
        proof {
            lemma_be_bytes_len(val as nat, 16);
            assert(self.buf_view@ =~= splice(before, pos, be_bytes(val as nat, 16)));
        }
        Ok(())
    }
    /// Writes `name` as uncompressed labels followed by a zero byte.
    ///
    /// Fails with `LabelTooLong` on a label over 63 bytes and with
    /// `EndOfBuffer` when the encoding does not fit; a failed write may
    /// leave a prefix of the name behind the cursor.
    #[verifier::rlimit(100)]
    pub fn write_name(&mut self, name: &str) -> (r: Result<(), DnsError>)
        requires
            name.is_ascii(),
        ensures
            final(self).buf_view@.len() == old(self).buf_view@.len(),
            final(self).position <= final(self).buf_view@.len() || final(self).position == old(
                self,
            ).position,
            (match r {
                Ok(()) => {
                    &&& labels_fit(name@)
                    &&& old(self).position + spec_encode_name(name@).len() <= old(
                        self,
                    ).buf_view@.len()
                    &&& final(self).buf_view@ == splice(
                        old(self).buf_view@,
                        old(self).position as int,
                        spec_encode_name(name@),
                    )
                    &&& final(self).position == old(self).position + spec_encode_name(
                        name@,
                    ).len()
                },
                Err(e) => {
                    &&& (e == DnsError::LabelTooLong && !labels_fit(name@)) || (e
                        == DnsError::EndOfBuffer && old(self).position + spec_encode_name(
                        name@,
                    ).len() > old(self).buf_view@.len())
                    &&& !(labels_fit(name@) && old(self).position + spec_encode_name(name@).len()
                        <= old(self).buf_view@.len())
                },
            }),
    {
        let ghost s = name@;
        let ghost buf0 = self.buf_view@;
        let ghost pos0 = self.position as int;
        let n = name.unicode_len();
        let buf_len = self.buf_view.len();
        if self.position > buf_len {
            return Err(DnsError::EndOfBuffer);
        }
        proof {
            vstd::utf8::is_ascii_chars_nat_bound(s);
            assert(s.skip(0) =~= s);
            assert(Seq::<Seq<char>>::empty() + name_labels(s.skip(0)) =~= name_labels(s));
            assert(spec_encode_labels(Seq::<Seq<char>>::empty()) =~= Seq::<u8>::empty());
            assert(splice(buf0, pos0, Seq::<u8>::empty()) =~= buf0);
        }
        let mut start: usize = 0;
        let ghost mut done: Seq<Seq<char>> = Seq::empty();
        loop
            invariant
                name.is_ascii(),
                s == name@,
                n == s.len(),
                start <= n,
                buf0 == old(self).buf_view@,
                pos0 == old(self).position,
                buf0.len() == buf_len <= usize::MAX,
                self.buf_view@.len() == buf0.len(),
                name_labels(s) == done + name_labels(s.skip(start as int)),
                forall|i: int| 0 <= i < done.len() ==> #[trigger] done[i].len() <= 63,
                self.buf_view@ == splice(buf0, pos0, spec_encode_labels(done)),
                self.position == pos0 + spec_encode_labels(done).len(),
                pos0 + spec_encode_labels(done).len() <= buf0.len(),
            decreases n - start,
        {
            let ghost skipped = s.skip(start as int);
            let mut end: usize = start;
            while end < n && name.get_ascii(end) != 46
                invariant
                    name.is_ascii(),
                    s == name@,
                    n == s.len(),
                    start <= end <= n,
                    forall|j: int| start <= j < end ==> s[j] != '.',
                decreases n - end,
            {
                proof {
                    vstd::utf8::is_ascii_chars_nat_bound(s);
                    assert(s[end as int] as u8 != 46 ==> s[end as int] != '.');
                }
                end = end + 1;
            }
            let ghost lab = s.subrange(start as int, end as int);
            proof {
                vstd::utf8::is_ascii_chars_nat_bound(s);
                if end < n {
                    assert(s[end as int] as u8 == 46);
                    assert(s[end as int] == '.') by {
                        assert((s[end as int] as nat) < 128);
                    };
                }
                assert(forall|j: int| 0 <= j < end - start ==> skipped[j] != '.');
                lemma_first_dot_at(skipped, end - start);
                if end < n {
                    assert(skipped.take(end - start) =~= lab);
                    assert(skipped.skip(end - start + 1) =~= s.skip(end + 1));
                    assert(name_labels(skipped) == seq![lab] + name_labels(s.skip(end + 1)));
                } else {
                    assert(skipped =~= lab);
                    assert(name_labels(skipped) == seq![lab]);
                }
                assert(name_labels(s)[done.len() as int] == lab) by {
                    assert(name_labels(skipped)[0] == lab);
                };
            }
            let lab_len = end - start;
            if lab_len > 63 {
                proof {
                    assert(!labels_fit(s));
                    lemma_encode_labels_concat(done, name_labels(skipped));
                }
                return Err(DnsError::LabelTooLong);
            }
            let ghost enc_done = spec_encode_labels(done);
            let ghost done2 = done.push(lab);
            proof {
                assert(done2 =~= done + seq![lab]);
                lemma_encode_labels_concat(done, seq![lab]);
                lemma_encode_single_label(lab);
                if end < n {
                    assert(done2 + name_labels(s.skip(end + 1)) =~= done + name_labels(skipped));
                } else {
                    assert(done2 =~= done + name_labels(skipped));
                }
                // the whole encoding is at least what has been written plus
                // the current label and the terminator
                lemma_encode_labels_concat(done2, name_labels(s).skip(done2.len() as int));
                assert(done2 + name_labels(s).skip(done2.len() as int) =~= name_labels(s));
                assert(spec_encode_name(s).len() >= enc_done.len() + 1 + lab.len() + 1);
            }
            match self.write(lab_len as u8) {
                Ok(u) => u,
                Err(e) => {
                    return Err(e);
                },
            }
            proof {
                assert(self.buf_view@ =~= splice(buf0, pos0, enc_done + seq![lab_len as u8]));
            }
            let mut j: usize = start;
            while j < end
                invariant
                    name.is_ascii(),
                    s == name@,
                    n == s.len(),
                    start <= j <= end <= n,
                    end - start <= 63,
                    lab == s.subrange(start as int, end as int),
                    buf0 == old(self).buf_view@,
                    pos0 == old(self).position,
                    buf0.len() == buf_len <= usize::MAX,
                    self.buf_view@.len() == buf0.len(),
                    pos0 + enc_done.len() + 1 + (end - start) + 1 <= spec_encode_name(s).len()
                        + pos0,
                    self.buf_view@ == splice(
                        buf0,
                        pos0,
                        enc_done + seq![(end - start) as u8] + label_bytes(lab).take(j - start),
                    ),
                    self.position == pos0 + enc_done.len() + 1 + (j - start),
                    pos0 + enc_done.len() + 1 + (j - start) <= buf0.len(),
                decreases end - j,
            {
                let b = name.get_ascii(j);
                let ghost prev = enc_done + seq![(end - start) as u8] + label_bytes(lab).take(
                    j - start,
                );
                match self.write(b) {
                    Ok(u) => u,
                    Err(e) => {
                        return Err(e);
                    },
                }
                proof {
                    assert(label_bytes(lab).take(j + 1 - start) =~= label_bytes(lab).take(j - start)
                        + seq![lab[j - start] as u8]);
                    assert(self.buf_view@ =~= splice(
                        buf0,
                        pos0,
                        enc_done + seq![(end - start) as u8] + label_bytes(lab).take(j + 1 - start),
                    ));
                }
                j = j + 1;
            }
            proof {
                assert(label_bytes(lab).take(end - start) =~= label_bytes(lab));
                assert(enc_done + seq![(end - start) as u8] + label_bytes(lab) =~=
                    spec_encode_labels(done2));
                done = done2;
            }
            if end == n {
                proof {
                    assert(name_labels(s) =~= done);
                    assert(spec_encode_name(s) =~= spec_encode_labels(done) + seq![0u8]);
                }
                match self.write(0) {
                    Ok(u) => u,
                    Err(e) => {
                        return Err(e);
                    },
                }
                proof {
                    assert(self.buf_view@ =~= splice(buf0, pos0, spec_encode_name(s)));
                    assert(labels_fit(s));
                }
                return Ok(());
            }
            start = end + 1;
            proof {
                assert(name_labels(s) == done + name_labels(s.skip(start as int)));
            }
        }
    }

}

/// `s` with `patch` overlaid starting at `pos`.
pub open spec fn splice(s: Seq<u8>, pos: int, patch: Seq<u8>) -> Seq<u8> {
    s.take(pos) + patch + s.skip(pos + patch.len())
}

/// Byte `k` from the most-significant end of the `n`-byte encoding of `v`.
proof fn lemma_be_bytes_step(v: nat, n: nat, k: nat)
    requires
        k < n,
    ensures
        be_bytes(v, n).len() == n,
        be_bytes(v, n)[n - 1 - k] == ((v / pow256(k)) % 256) as u8,
    decreases k,
{
    lemma_be_bytes_len(v, n);
    lemma_be_bytes_len(v / 256, (n - 1) as nat);
    if k == 0 {
        assert(v / pow256(0) == v) by (nonlinear_arith)
            requires
                pow256(0) == 1,
        ;
    } else {
        lemma_be_bytes_step(v / 256, (n - 1) as nat, (k - 1) as nat);
        lemma_pow256_pos((k - 1) as nat);
        assert(v / 256 / pow256((k - 1) as nat) == v / pow256(k)) by (nonlinear_arith)
            requires
                pow256(k) == 256 * pow256((k - 1) as nat),
                pow256((k - 1) as nat) > 0,
        ;
    }
}


/// How a label byte appears in a decoded name: ASCII letters are
/// lowercased and bytes outside ASCII are replaced with `?`.  Hostname
/// labels are ASCII on the wire, so real names pass through unchanged;
/// replacing the rest keeps every decoded name ASCII, which is what the
/// encoder accepts, so any decoded message can be re-encoded.
pub open spec fn name_byte(b: u8) -> u8 {
    if b >= 128 {
        63
    } else if 65 <= b && b <= 90 {
        (b + 32) as u8
    } else {
        b
    }
}

/// The bytes of a name read as characters, one for one.
pub open spec fn chars_of_bytes(s: Seq<u8>) -> Seq<char> {
    s.map_values(|b: u8| b as char)
}

/// Distance from `pos` to the end of a buffer of length `len`, clamped
/// at zero.
pub open spec fn rem_len(len: int, pos: int) -> int {
    if pos <= len {
        len - pos
    } else {
        0
    }
}

/// The absolute offset named by the pointer word at `pos`: its 14 low bits.
pub open spec fn jump_target(buf: Seq<u8>, pos: int) -> int {
    (be_val(buf.subrange(pos, pos + 2)) % 0x4000) as int
}

/// The name that decoding at `pos` yields after `jumps` pointer jumps,
/// as lowercased label bytes joined by `.` with no trailing dot, or the
/// error that decoding reports.
pub open spec fn spec_read_name_at(buf: Seq<u8>, pos: int, jumps: int) -> Result<Seq<u8>, DnsError>
    decreases 6 - jumps, rem_len(buf.len() as int, pos),
{
    if jumps > MAX_JUMPS {
        Err(DnsError::TooManyJumps)
    } else if pos < 0 || pos >= buf.len() {
        Err(DnsError::EndOfBuffer)
    } else if buf[pos] & JUMP_MASK == JUMP_MASK {
        if pos + 2 > buf.len() {
            Err(DnsError::EndOfBuffer)
        } else {
            spec_read_name_at(buf, jump_target(buf, pos), jumps + 1)
        }
    } else if buf[pos] == 0 {
        Ok(Seq::empty())
    } else if pos + 1 + buf[pos] >= buf.len() {
        Err(DnsError::EndOfBuffer)
    } else {
        match spec_read_name_at(buf, pos + 1 + buf[pos], jumps) {
            Err(e) => Err(e),
            Ok(rest) => {
                let lab = buf.subrange(pos + 1, pos + 1 + buf[pos]).map_values(
                    |b: u8| name_byte(b),
                );
                Ok(
                    if rest.len() == 0 {
                        lab
                    } else {
                        lab + seq![46u8] + rest
                    },
                )
            },
        }
    }
}

/// Where the cursor stands after reading the name at `pos`: one past the
/// terminator of an inline name, or one past the first pointer.
pub open spec fn spec_name_end(buf: Seq<u8>, pos: int) -> int
    decreases rem_len(buf.len() as int, pos),
{
    if pos < 0 || pos >= buf.len() {
        pos
    } else if buf[pos] & JUMP_MASK == JUMP_MASK {
        pos + 2
    } else if buf[pos] == 0 {
        pos + 1
    } else {
        spec_name_end(buf, pos + 1 + buf[pos])
    }
}

/// Every byte of a decoded name is ASCII and is its own `name_byte`
/// image, apart from the separating dots.
pub proof fn lemma_read_name_ascii(buf: Seq<u8>, pos: int, jumps: int)
    requires
        spec_read_name_at(buf, pos, jumps) is Ok,
    ensures
        forall|i: int|
            0 <= i < spec_read_name_at(buf, pos, jumps)->Ok_0.len()
                ==> spec_read_name_at(buf, pos, jumps)->Ok_0[i] < 128,
    decreases 6 - jumps, rem_len(buf.len() as int, pos),
{
    if jumps > MAX_JUMPS || pos < 0 || pos >= buf.len() {
    } else if buf[pos] & JUMP_MASK == JUMP_MASK {
        if pos + 2 <= buf.len() {
            lemma_read_name_ascii(buf, jump_target(buf, pos), jumps + 1);
        }
    } else if buf[pos] == 0 {
    } else if pos + 1 + buf[pos] >= buf.len() {
    } else {
        lemma_read_name_ascii(buf, pos + 1 + buf[pos], jumps);
    }
}

/// Relies on `String::from_utf8` of std: a byte string of ASCII bytes
/// decodes to the string with exactly those characters.
#[verifier::external_body]
fn ascii_to_string(bytes: Vec<u8>) -> (r: String)
    requires
        forall|i: int| 0 <= i < bytes@.len() ==> bytes@[i] < 128,
    ensures
        r@ == chars_of_bytes(bytes@),
{
    match String::from_utf8(bytes) {
        Ok(s) => s,
        Err(_) => String::new(),
    }
}


/// Index of the first `.` in `s`, or `s.len()` when there is none.
pub open spec fn first_dot(s: Seq<char>) -> nat
    decreases s.len(),
{
    if s.len() == 0 {
        0
    } else if s[0] == '.' {
        0
    } else {
        1 + first_dot(s.drop_first())
    }
}

/// The labels of a dotted name, in order; the empty name has one empty
/// label, as splitting on `.` gives it.
pub open spec fn name_labels(s: Seq<char>) -> Seq<Seq<char>>
    decreases s.len(),
{
    let fd = first_dot(s) as int;
    if fd >= s.len() {
        seq![s]
    } else {
        seq![s.take(fd)] + name_labels(s.skip(fd + 1))
    }
}

/// A label's characters as wire bytes, one for one.
pub open spec fn label_bytes(l: Seq<char>) -> Seq<u8> {
    l.map_values(|c: char| c as u8)
}

/// Wire form of a label sequence: each label length-prefixed, with no
/// terminator.
pub open spec fn spec_encode_labels(ls: Seq<Seq<char>>) -> Seq<u8>
    decreases ls.len(),
{
    if ls.len() == 0 {
        Seq::empty()
    } else {
        seq![ls[0].len() as u8] + label_bytes(ls[0]) + spec_encode_labels(ls.drop_first())
    }
}

/// Wire form of a whole name: its labels followed by a zero byte.
pub open spec fn spec_encode_name(s: Seq<char>) -> Seq<u8> {
    spec_encode_labels(name_labels(s)) + seq![0u8]
}

/// Every label of the name is at most 63 bytes.
pub open spec fn labels_fit(s: Seq<char>) -> bool {
    forall|i: int| 0 <= i < name_labels(s).len() ==> #[trigger] name_labels(s)[i].len() <= 63
}

pub proof fn lemma_first_dot_at(t: Seq<char>, k: int)
    requires
        0 <= k <= t.len(),
        forall|j: int| 0 <= j < k ==> t[j] != '.',
        k < t.len() ==> t[k] == '.',
    ensures
        first_dot(t) == k,
    decreases t.len(),
{
    if t.len() == 0 {
    } else if t[0] == '.' {
        assert(k == 0);
    } else {
        assert(k >= 1);
        lemma_first_dot_at(t.drop_first(), k - 1);
    }
}

pub proof fn lemma_encode_single_label(l: Seq<char>)
    ensures
        spec_encode_labels(seq![l]) == seq![l.len() as u8] + label_bytes(l),
{
    reveal_with_fuel(spec_encode_labels, 3);
    assert(seq![l].drop_first() =~= Seq::<Seq<char>>::empty());
    assert(spec_encode_labels(seq![l]) =~= seq![l.len() as u8] + label_bytes(l));
}

pub proof fn lemma_encode_labels_concat(a: Seq<Seq<char>>, b: Seq<Seq<char>>)
    ensures
        spec_encode_labels(a + b) == spec_encode_labels(a) + spec_encode_labels(b),
    decreases a.len(),
{
    if a.len() == 0 {
        assert(a + b =~= b);
        assert(spec_encode_labels(a) + spec_encode_labels(b) =~= spec_encode_labels(b));
    } else {
        assert((a + b).drop_first() =~= a.drop_first() + b);
        lemma_encode_labels_concat(a.drop_first(), b);
        assert((a + b)[0] == a[0]);
        assert(spec_encode_labels(a + b) =~= spec_encode_labels(a) + spec_encode_labels(b));
    }
}

/// Where each byte of a spliced buffer comes from.
pub proof fn lemma_splice_index(b: Seq<u8>, p: int, w: Seq<u8>)
    requires
        0 <= p,
        p + w.len() <= b.len(),
    ensures
        splice(b, p, w).len() == b.len(),
        forall|i: int| 0 <= i < p ==> splice(b, p, w)[i] == b[i],
        forall|i: int| p <= i < p + w.len() ==> splice(b, p, w)[i] == w[i - p],
        forall|i: int| p + w.len() <= i < b.len() ==> splice(b, p, w)[i] == b[i],
{
}


/// The lowercased bytes of an ASCII name, dot for dot.
pub open spec fn lower_bytes(s: Seq<char>) -> Seq<u8> {
    s.map_values(|c: char| name_byte(c as u8))
}

/// Every label of the name has at least one byte.
pub open spec fn labels_nonempty(s: Seq<char>) -> bool {
    forall|i: int| 0 <= i < name_labels(s).len() ==> #[trigger] name_labels(s)[i].len() >= 1
}

/// A name the builder can put on the wire and the parser hands back:
/// ASCII, with labels of 1 to 63 bytes unless the name is empty.
pub open spec fn valid_wire_name(s: Seq<char>) -> bool {
    &&& vstd::utf8::is_ascii_chars(s)
    &&& labels_fit(s)
    &&& (s.len() == 0 || labels_nonempty(s))
}

pub proof fn lemma_first_dot_bounds(s: Seq<char>)
    ensures
        first_dot(s) <= s.len(),
        first_dot(s) < s.len() ==> s[first_dot(s) as int] == '.',
        forall|j: int| 0 <= j < first_dot(s) ==> s[j] != '.',
    decreases s.len(),
{
    if s.len() == 0 {
    } else if s[0] == '.' {
    } else {
        lemma_first_dot_bounds(s.drop_first());
        assert forall|j: int| 0 <= j < first_dot(s) implies s[j] != '.' by {
            if j >= 1 {
                assert(s.drop_first()[j - 1] != '.');
            }
        };
    }
}

/// Reading a name the builder wrote yields the lowercased name: the
/// round-trip law for `write_name` and `read_name`, stated over the
/// wire image that `write_name` leaves in the buffer.
pub proof fn lemma_name_round_trip(buf: Seq<u8>, pos: int, s: Seq<char>)
    requires
        valid_wire_name(s),
        0 <= pos,
        pos + spec_encode_name(s).len() <= buf.len(),
        buf.subrange(pos, pos + spec_encode_name(s).len() as int) == spec_encode_name(s),
    ensures
        spec_read_name_at(buf, pos, 0) == Ok::<Seq<u8>, DnsError>(lower_bytes(s)),
        spec_name_end(buf, pos) == if s.len() == 0 {
            pos + 1
        } else {
            pos + spec_encode_name(s).len()
        },
    decreases s.len(),
{
    vstd::utf8::is_ascii_chars_nat_bound(s);
    let enc = spec_encode_name(s);
    let labels = name_labels(s);
    lemma_first_dot_bounds(s);
    let fd = first_dot(s) as int;
    assert(forall|k: int| 0 <= k < enc.len() ==> buf[pos + k] == enc[k]) by {
        assert(forall|k: int|
            0 <= k < enc.len() ==> buf.subrange(pos, pos + enc.len() as int)[k]
                == #[trigger] enc.index(k));
    };
    if s.len() == 0 {
        lemma_encode_single_label(s);
        assert(label_bytes(s) =~= Seq::<u8>::empty());
        assert(enc =~= seq![0u8, 0u8]);
        assert(buf[pos + 0] == enc[0]);
        assert(buf[pos] == 0);
        assert(0u8 & JUMP_MASK != JUMP_MASK) by (bit_vector);
        assert(lower_bytes(s) =~= Seq::<u8>::empty());
    } else if fd >= s.len() {
        // a single label: length byte, bytes, terminator
        assert(labels == seq![s]);
        assert(labels[0] == s);
        let len1 = s.len() as int;
        assert(1 <= len1 <= 63);
        lemma_encode_single_label(s);
        assert(enc =~= seq![s.len() as u8] + label_bytes(s) + seq![0u8]);
        assert(buf[pos + 0] == enc[0]);
        assert(buf[pos] == s.len() as u8);
        let b0 = buf[pos];
        assert(b0 & 0xC0u8 != 0xC0u8) by (bit_vector)
            requires
                b0 <= 63,
        ;
        let term = pos + 1 + len1;
        assert(enc[1 + len1] == 0);
        assert(buf[pos + (1 + len1)] == enc[1 + len1]);
        assert(buf[term] == 0);
        assert(0u8 & JUMP_MASK != JUMP_MASK) by (bit_vector);
        assert(spec_read_name_at(buf, term, 0) == Ok::<Seq<u8>, DnsError>(Seq::empty()));
        assert(spec_name_end(buf, term) == term + 1);
        let labread = buf.subrange(pos + 1, pos + 1 + len1).map_values(|b: u8| name_byte(b));
        assert forall|i: int| 0 <= i < len1 implies buf.subrange(pos + 1, pos + 1 + len1)[i]
            == label_bytes(s)[i] by {
            assert(buf[pos + (1 + i)] == enc[1 + i]);
        };
        assert(buf.subrange(pos + 1, pos + 1 + len1) =~= label_bytes(s));
        assert(labread =~= lower_bytes(s));
        assert(spec_read_name_at(buf, pos, 0) == Ok::<Seq<u8>, DnsError>(lower_bytes(s)));
        assert(spec_name_end(buf, pos) == pos + enc.len());
    } else {
        // the first label, a dot, and the rest of the name
        let lab1 = s.take(fd);
        let rest_s = s.skip(fd + 1);
        assert(labels == seq![lab1] + name_labels(rest_s));
        assert(labels[0] == lab1);
        assert(forall|i: int|
            0 <= i < name_labels(rest_s).len() ==> #[trigger] name_labels(rest_s)[i] == labels[i
                + 1]);
        assert(1 <= fd <= 63) by {
            assert(labels[0].len() >= 1);
            assert(labels[0].len() <= 63);
        };
        assert(rest_s.len() >= 1) by {
            if rest_s.len() == 0 {
                assert(name_labels(rest_s) == seq![rest_s]);
                assert(labels[1].len() == 0);
            }
        };
        assert(valid_wire_name(rest_s)) by {
            assert(vstd::utf8::is_ascii_chars(rest_s));
        };
        lemma_encode_single_label(lab1);
        lemma_encode_labels_concat(seq![lab1], name_labels(rest_s));
        let encr = spec_encode_name(rest_s);
        assert(enc =~= seq![lab1.len() as u8] + label_bytes(lab1) + encr);
        let pos2 = pos + 1 + fd;
        assert forall|i: int| 0 <= i < encr.len() implies buf.subrange(
            pos2,
            pos2 + encr.len() as int,
        )[i] == encr[i] by {
            assert(buf[pos + (1 + fd + i)] == enc[1 + fd + i]);
        };
        assert(buf.subrange(pos2, pos2 + encr.len() as int) =~= encr);
        assert(encr.len() >= 2) by {
            assert(name_labels(rest_s).len() >= 1);
        };
        lemma_name_round_trip(buf, pos2, rest_s);
        assert(buf[pos + 0] == enc[0]);
        assert(buf[pos] == lab1.len() as u8);
        let b0 = buf[pos];
        assert(b0 & 0xC0u8 != 0xC0u8) by (bit_vector)
            requires
                b0 <= 63,
        ;
        let labread = buf.subrange(pos + 1, pos + 1 + fd).map_values(|b: u8| name_byte(b));
        assert forall|i: int| 0 <= i < fd implies buf.subrange(pos + 1, pos + 1 + fd)[i]
            == label_bytes(lab1)[i] by {
            assert(buf[pos + (1 + i)] == enc[1 + i]);
        };
        assert(buf.subrange(pos + 1, pos + 1 + fd) =~= label_bytes(lab1));
        assert(lower_bytes(rest_s).len() > 0);
        assert(spec_read_name_at(buf, pos, 0) == Ok::<Seq<u8>, DnsError>(
            labread + seq![46u8] + lower_bytes(rest_s),
        ));
        assert(s[fd] == '.');
        assert(labread + seq![46u8] + lower_bytes(rest_s) =~= lower_bytes(s));
        assert(spec_name_end(buf, pos) == spec_name_end(buf, pos2));
        assert(spec_name_end(buf, pos) == pos + enc.len());
    }
}

} // verus!
