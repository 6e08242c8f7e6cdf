use vstd::prelude::*;

verus! {

/// Little-endian value of two bytes.
pub open spec fn le16(b0: u8, b1: u8) -> int {
    b0 as int + b1 as int * 0x100
}

/// Little-endian value of four bytes.
pub open spec fn le32(b0: u8, b1: u8, b2: u8, b3: u8) -> int {
    b0 as int + b1 as int * 0x100 + b2 as int * 0x1_0000 + b3 as int * 0x100_0000
}

/// Big-endian value of four bytes.
pub open spec fn be32(b0: u8, b1: u8, b2: u8, b3: u8) -> int {
    le32(b3, b2, b1, b0)
}

/// A source of bytes read front to back. Every read either takes the bytes
/// it needs from the front of what remains, or fails and takes nothing.
pub trait ReadUtil {
    /// The bytes not yet read.
    spec fn remaining(&self) -> Seq<u8>;

    fn byte(&mut self) -> (r: Option<[u8; 1]>)
        ensures
            old(self).remaining().len() >= 1 ==> r == Some([old(self).remaining()[0]])
                && final(self).remaining() == old(self).remaining().skip(1),
            old(self).remaining().len() < 1 ==> r.is_none() && final(self).remaining()
                == old(self).remaining(),
    ;

    fn word(&mut self) -> (r: Option<[u8; 2]>)
        ensures
            old(self).remaining().len() >= 2 ==> r == Some(
                [old(self).remaining()[0], old(self).remaining()[1]],
            ) && final(self).remaining() == old(self).remaining().skip(2),
            old(self).remaining().len() < 2 ==> r.is_none() && final(self).remaining()
                == old(self).remaining(),
    ;

    fn dword(&mut self) -> (r: Option<[u8; 4]>)
        ensures
            old(self).remaining().len() >= 4 ==> r == Some(
                [
                    old(self).remaining()[0],
                    old(self).remaining()[1],
                    old(self).remaining()[2],
                    old(self).remaining()[3],
                ],
            ) && final(self).remaining() == old(self).remaining().skip(4),
            old(self).remaining().len() < 4 ==> r.is_none() && final(self).remaining()
                == old(self).remaining(),
    ;

    fn read_u8(&mut self) -> (r: Option<u8>)
        ensures
            old(self).remaining().len() >= 1 ==> r == Some(old(self).remaining()[0])
                && final(self).remaining() == old(self).remaining().skip(1),
            old(self).remaining().len() < 1 ==> r.is_none() && final(self).remaining()
                == old(self).remaining(),
    ;

    fn read_u16_le(&mut self) -> (r: Option<u16>)
        ensures
            old(self).remaining().len() >= 2 ==> r.is_some() && r.unwrap() as int == le16(
                old(self).remaining()[0],
                old(self).remaining()[1],
            ) && final(self).remaining() == old(self).remaining().skip(2),
            old(self).remaining().len() < 2 ==> r.is_none() && final(self).remaining()
                == old(self).remaining(),
    ;

    fn read_u32_le(&mut self) -> (r: Option<u32>)
        ensures
            old(self).remaining().len() >= 4 ==> r.is_some() && r.unwrap() as int == le32(
                old(self).remaining()[0],
                old(self).remaining()[1],
                old(self).remaining()[2],
                old(self).remaining()[3],
            ) && final(self).remaining() == old(self).remaining().skip(4),
            old(self).remaining().len() < 4 ==> r.is_none() && final(self).remaining()
                == old(self).remaining(),
    ;

    fn read_u32_be(&mut self) -> (r: Option<u32>)
        ensures
            old(self).remaining().len() >= 4 ==> r.is_some() && r.unwrap() as int == be32(
                old(self).remaining()[0],
                old(self).remaining()[1],
                old(self).remaining()[2],
                old(self).remaining()[3],
            ) && final(self).remaining() == old(self).remaining().skip(4),
            old(self).remaining().len() < 4 ==> r.is_none() && final(self).remaining()
                == old(self).remaining(),
    ;

    /// Reads a length byte and then that many bytes.
    fn read_pascal_string(&mut self) -> (r: Option<Vec<u8>>)
        ensures
            ({
                let rem = old(self).remaining();
                let n = if rem.len() >= 1 { rem[0] as int } else { 0 };
                &&& rem.len() >= 1 && rem.len() >= 1 + n ==> r.is_some() && r.unwrap()@
                    == rem.subrange(1, 1 + n) && final(self).remaining() == rem.skip(1 + n)
                &&& !(rem.len() >= 1 && rem.len() >= 1 + n) ==> r.is_none() && final(self).remaining()
                    == rem
            }),
    ;
}

/// A cursor over a byte slice.
pub struct SliceReader<'a> {
    pub data: &'a [u8],
    pub pos: usize,
}

impl<'a> SliceReader<'a> {
    pub fn new(data: &'a [u8]) -> (r: SliceReader<'a>)
        ensures
            r.remaining() == data@,
    {
        let r = SliceReader { data, pos: 0 };
        assert(r.data@.skip(0) =~= data@);
        r
    }

    /// How many bytes have been read so far.
    pub fn position(&self) -> (r: usize)
        ensures
            r == self.pos,
    {
        self.pos
    }
}

impl<'a> ReadUtil for SliceReader<'a> {
    open spec fn remaining(&self) -> Seq<u8> {
        if self.pos <= self.data@.len() {
            self.data@.skip(self.pos as int)
        } else {
            Seq::empty()
        }
    }

    fn byte(&mut self) -> (r: Option<[u8; 1]>) {
        if self.pos < self.data.len() {
            let b = self.data[self.pos];
            self.pos = self.pos + 1;
            assert(final(self).remaining() =~= old(self).remaining().skip(1));
            Some([b])
        } else {
            None
        }
    }

    fn word(&mut self) -> (r: Option<[u8; 2]>) {
        if self.pos <= self.data.len() && self.data.len() - self.pos >= 2 {
            let p = self.pos;
            let b = [self.data[p], self.data[p + 1]];
            self.pos = p + 2;
            assert(final(self).remaining() =~= old(self).remaining().skip(2));
            Some(b)
        } else {
            None
        }
    }

    fn dword(&mut self) -> (r: Option<[u8; 4]>) {
        if self.pos <= self.data.len() && self.data.len() - self.pos >= 4 {
            let p = self.pos;
            let b = [self.data[p], self.data[p + 1], self.data[p + 2], self.data[p + 3]];
            self.pos = p + 4;
            assert(final(self).remaining() =~= old(self).remaining().skip(4));
            Some(b)
        } else {
            None
        }
    }

    fn read_u8(&mut self) -> (r: Option<u8>) {
        match self.byte() {
            Some(b) => Some(b[0]),
            None => None,
        }
    }

    fn read_u16_le(&mut self) -> (r: Option<u16>) {
        match self.word() {
            Some(b) => Some(b[0] as u16 + b[1] as u16 * 0x100),
            None => None,
        }
    }

    fn read_u32_le(&mut self) -> (r: Option<u32>) {
        match self.dword() {
            Some(b) => Some(
                b[0] as u32 + b[1] as u32 * 0x100 + b[2] as u32 * 0x1_0000 + b[3] as u32
                    * 0x100_0000,
            ),
            None => None,
        }
    }

    fn read_u32_be(&mut self) -> (r: Option<u32>) {
        match self.dword() {
            Some(b) => Some(
                b[3] as u32 + b[2] as u32 * 0x100 + b[1] as u32 * 0x1_0000 + b[0] as u32
                    * 0x100_0000,
            ),
            None => None,
        }
    }

    fn read_pascal_string(&mut self) -> (r: Option<Vec<u8>>) {
        if self.pos >= self.data.len() {
            return None;
        }
        assert(old(self).remaining()[0] == self.data@[self.pos as int]);
        let n = self.data[self.pos] as usize;
        if self.data.len() - self.pos - 1 < n {
            return None;
        }
        let start = self.pos + 1;
        let len = self.data.len();
        let mut out: Vec<u8> = Vec::new();
        let mut i: usize = 0;
        while i < n
            invariant
                start + n <= len,
                len == self.data@.len(),
                self.pos < self.data@.len(),
                i <= n,
                out@ == self.data@.subrange(start as int, start + i),
            decreases n - i,
        {
            out.push(self.data[start + i]);
            i = i + 1;
            assert(out@ =~= self.data@.subrange(start as int, start + i));
        }
        self.pos = start + n;
        assert(final(self).remaining() =~= old(self).remaining().skip(1 + n));
        assert(out@ =~= old(self).remaining().subrange(1, 1 + n as int));
        Some(out)
    }
}

} // verus!
