use vstd::prelude::*;
use vstd::bytes::{
    u16_to_le_bytes, u16_from_le_bytes, spec_u16_to_le_bytes, spec_u16_from_le_bytes,
    u32_to_le_bytes, u32_from_le_bytes, spec_u32_to_le_bytes, spec_u32_from_le_bytes,
};
use vstd::slice::{slice_subrange, slice_to_vec, slice_index_get};
use vstd::string::StrSliceExecFns;
use vstd::utf8::{encode_utf8, decode_utf8, valid_utf8};
use crate::bytecode_serializer::string_from_utf8;

verus! {

/// The fixed size of one page in bytes.
pub const PAGE_SIZE: u16 = 8192;

/// The size of the page header in bytes.
pub const HEADER_SIZE: usize = 12;

/// The fixed width of a line pointer's key field.
pub const MAX_KEY: usize = 32;

/// Errors of the slotted-page layer.
#[derive(Debug, Clone, PartialEq, Eq)]
pub enum PersistentLayerError {
    HeaderCrError(String),
    /// A key longer than the line-pointer key field: holds the maximum and
    /// the actual byte length.
    LinePointerLenError(usize, usize),
    /// A line-pointer slice of the wrong width.
    LinePointerSerializationError,
    /// A key or value that is not UTF-8.
    FailedParsingUTF8,
    /// A value whose byte length does not fit a 32-bit length field.
    ValueTooLong,
    /// A malformed page header.
    HeaderError(String),
    /// A page whose pointers or entries run outside the buffer.
    Deserialization(String),
}

/// The page header: six 16-bit fields, little endian, in this order.
/// `lower` is the next free byte above the line pointers, `upper` the last
/// occupied byte below the value heap, `linp` the offset of the first line
/// pointer. `checksum` and `flags` are reserved and written as zero.
pub struct Header {
    pub checksum: u16,
    pub flags: u16,
    pub lower: u16,
    pub upper: u16,
    pub linp: u16,
    pub page_size: u16,
}

pub enum HeaderProps {
    CHECKSUM(u16),
    FLAGS(u16),
    LOWER(u16),
    UPPER(u16),
    LINP(u16),
}

/// The twelve header bytes.
pub open spec fn spec_header_bytes(h: Header) -> Seq<u8> {
    spec_u16_to_le_bytes(h.page_size) + spec_u16_to_le_bytes(h.checksum) + spec_u16_to_le_bytes(
        h.flags,
    ) + spec_u16_to_le_bytes(h.lower) + spec_u16_to_le_bytes(h.upper) + spec_u16_to_le_bytes(
        h.linp,
    )
}

/// The header read back from the first twelve bytes of a page.
pub open spec fn spec_header_of(b: Seq<u8>) -> Header {
    Header {
        page_size: spec_u16_from_le_bytes(b.subrange(0, 2)),
        checksum: spec_u16_from_le_bytes(b.subrange(2, 4)),
        flags: spec_u16_from_le_bytes(b.subrange(4, 6)),
        lower: spec_u16_from_le_bytes(b.subrange(6, 8)),
        upper: spec_u16_from_le_bytes(b.subrange(8, 10)),
        linp: spec_u16_from_le_bytes(b.subrange(10, 12)),
    }
}

impl Header {
    /// A header for an empty page: all cursors zero until `construct` sets
    /// them.
    pub fn new_default() -> (r: Self)
        ensures
            r == (Header {
                page_size: PAGE_SIZE,
                checksum: 0u16,
                flags: 0u16,
                lower: 0u16,
                upper: 0u16,
                linp: 0u16,
            }),
    {
        Header { page_size: PAGE_SIZE, checksum: 0, flags: 0, lower: 0, upper: 0, linp: 0 }
    }

    pub fn from_bytes(bytes: &[u8]) -> (r: Result<Self, PersistentLayerError>)
        ensures
            bytes@.len() == HEADER_SIZE ==> (r matches Ok(h) && h == spec_header_of(bytes@)),
            bytes@.len() != HEADER_SIZE ==> (r matches Err(e) && e matches
                PersistentLayerError::HeaderError(_)),
    {
        if bytes.len() != HEADER_SIZE {
            return Err(
                PersistentLayerError::HeaderError(
                    "header must be exactly twelve bytes".to_owned(),
                ),
            );
        }
        let page_size = u16_from_le_bytes(slice_subrange(bytes, 0, 2));
        let checksum = u16_from_le_bytes(slice_subrange(bytes, 2, 4));
        let flags = u16_from_le_bytes(slice_subrange(bytes, 4, 6));
        let lower = u16_from_le_bytes(slice_subrange(bytes, 6, 8));
        let upper = u16_from_le_bytes(slice_subrange(bytes, 8, 10));
        let linp = u16_from_le_bytes(slice_subrange(bytes, 10, 12));
        Ok(Header { page_size, checksum, flags, lower, upper, linp })
    }

    pub fn to_bytes(&self) -> (r: Vec<u8>)
        ensures
            r@ == spec_header_bytes(*self),
            r@.len() == HEADER_SIZE,
    {
        let mut result: Vec<u8> = Vec::new();
        let mut b = u16_to_le_bytes(self.page_size);
        result.append(&mut b);
        let mut b = u16_to_le_bytes(self.checksum);
        result.append(&mut b);
        let mut b = u16_to_le_bytes(self.flags);
        result.append(&mut b);
        let mut b = u16_to_le_bytes(self.lower);
        result.append(&mut b);
        let mut b = u16_to_le_bytes(self.upper);
        result.append(&mut b);
        let mut b = u16_to_le_bytes(self.linp);
        result.append(&mut b);
        proof {
            assert(result@ =~= spec_header_bytes(*self));
        }
        result
    }

    pub fn set(&mut self, value: HeaderProps)
        ensures
            *final(self) == match value {
                HeaderProps::CHECKSUM(v) => Header { checksum: v, ..*old(self) },
                HeaderProps::FLAGS(v) => Header { flags: v, ..*old(self) },
                HeaderProps::LINP(v) => Header { linp: v, ..*old(self) },
                HeaderProps::LOWER(v) => Header { lower: v, ..*old(self) },
                HeaderProps::UPPER(v) => Header { upper: v, ..*old(self) },
            },
    {
        match value {
            HeaderProps::CHECKSUM(v) => self.checksum = v,
            HeaderProps::FLAGS(v) => self.flags = v,
            HeaderProps::LINP(v) => self.linp = v,
            HeaderProps::LOWER(v) => self.lower = v,
            HeaderProps::UPPER(v) => self.upper = v,
        }
    }

    pub fn upper(&self) -> (r: u16)
        ensures
            r == self.upper,
    {
        self.upper
    }

    pub fn lower(&self) -> (r: u16)
        ensures
            r == self.lower,
    {
        self.lower
    }

    /// Whether `size` more bytes fit between the cursors.
    pub fn is_space_to_write(&self, size: usize) -> (r: bool)
        ensures
            r == (self.upper as int - self.lower as int >= size as int),
    {
        if self.upper >= self.lower {
            (self.upper - self.lower) as usize >= size
        } else {
            false
        }
    }
}

/// A key padded with zero bytes to a fixed width, followed by the 16-bit
/// offset of the key's value entry within the page.
pub struct LinePointer<const MAX_LEN: usize>(pub String, pub u16);

/// The fixed-width bytes of a line pointer.
pub open spec fn spec_lp_bytes(key: Seq<char>, idx: u16, max: int) -> Seq<u8> {
    encode_utf8(key) + Seq::new((max - encode_utf8(key).len()) as nat, |i: int| 0u8)
        + spec_u16_to_le_bytes(idx)
}

/// A character sequence with its trailing NUL characters removed.
pub open spec fn trim_nuls(s: Seq<char>) -> Seq<char>
    decreases s.len(),
{
    if s.len() > 0 && s.last() == '\u{0}' {
        trim_nuls(s.drop_last())
    } else {
        s
    }
}

/// If everything from `k` on is NUL and the character before `k` is not,
/// trimming cuts exactly at `k`.
pub proof fn lemma_trim_nuls_at(s: Seq<char>, k: int)
    requires
        0 <= k <= s.len(),
        forall|j: int| k <= j < s.len() ==> s[j] == '\u{0}',
        k > 0 ==> s[k - 1] != '\u{0}',
    ensures
        trim_nuls(s) == s.subrange(0, k),
    decreases s.len(),
{
    if s.len() > k {
        lemma_trim_nuls_at(s.drop_last(), k);
        assert(s.drop_last().subrange(0, k) =~= s.subrange(0, k));
    } else {
        assert(s.subrange(0, k) =~= s);
    }
}

impl<const MAX_LEN: usize> LinePointer<MAX_LEN> {
    /// Accepts a key of at most the field width.
    pub fn new(value: String, idx: u16) -> (r: Result<Self, PersistentLayerError>)
        ensures
            match r {
                Ok(lp) => encode_utf8(value@).len() <= MAX_LEN && lp.0 == value && lp.1 == idx,
                Err(e) => encode_utf8(value@).len() > MAX_LEN && e == (
                PersistentLayerError::LinePointerLenError(
                    MAX_LEN,
                    encode_utf8(value@).len() as usize,
                )),
            },
    {
        let key_bytes_vec = value.as_str().as_bytes_vec();
        let key_byte_len = key_bytes_vec.len();
        if key_byte_len > MAX_LEN {
            return Err(PersistentLayerError::LinePointerLenError(MAX_LEN, key_byte_len));
        }
        Ok(LinePointer(value, idx))
    }

    pub fn to_bytes(&self) -> (r: Vec<u8>)
        requires
            encode_utf8(self.0@).len() <= MAX_LEN,
        ensures
            r@ == spec_lp_bytes(self.0@, self.1, MAX_LEN as int),
            r@.len() == MAX_LEN + 2,
    {
        let mut bytes = self.0.as_str().as_bytes_vec();
        let mut pad: usize = MAX_LEN - bytes.len();
        while pad > 0
            invariant
                bytes@.len() + pad == MAX_LEN,
                bytes@ == encode_utf8(self.0@) + Seq::new(
                    (MAX_LEN - pad - encode_utf8(self.0@).len()) as nat,
                    |i: int| 0u8,
                ),
            decreases pad,
        {
            bytes.push(0u8);
            pad = pad - 1;
            proof {
                assert(bytes@ =~= encode_utf8(self.0@) + Seq::new(
                    (MAX_LEN - pad - encode_utf8(self.0@).len()) as nat,
                    |i: int| 0u8,
                ));
            }
        }
        let mut idx = u16_to_le_bytes(self.1);
        bytes.append(&mut idx);
        proof {
            assert(bytes@ =~= spec_lp_bytes(self.0@, self.1, MAX_LEN as int));
        }
        bytes
    }

    pub fn from_bytes(bytes: &[u8]) -> (r: Result<Self, PersistentLayerError>)
        ensures
            match r {
                Ok(lp) => bytes@.len() == MAX_LEN + 2 && valid_utf8(
                    bytes@.subrange(0, MAX_LEN as int),
                ) && lp.0@ == trim_nuls(decode_utf8(bytes@.subrange(0, MAX_LEN as int))) && lp.1
                    == spec_u16_from_le_bytes(
                    bytes@.subrange(MAX_LEN as int, MAX_LEN as int + 2),
                ),
                Err(PersistentLayerError::LinePointerSerializationError) => bytes@.len()
                    != MAX_LEN + 2,
                Err(PersistentLayerError::FailedParsingUTF8) => bytes@.len() == MAX_LEN + 2
                    && !valid_utf8(bytes@.subrange(0, MAX_LEN as int)),
                Err(_) => false,
            },
    {
        if bytes.len() < 2 || bytes.len() - 2 != MAX_LEN {
            return Err(PersistentLayerError::LinePointerSerializationError);
        }
        let key_bytes = slice_to_vec(slice_subrange(bytes, 0, MAX_LEN));
        let key_full = match string_from_utf8(key_bytes) {
            Some(s) => s,
            None => {
                return Err(PersistentLayerError::FailedParsingUTF8);
            },
        };
        let n = key_full.as_str().unicode_len();
        let mut k: usize = n;
        while k > 0 && key_full.as_str().get_char(k - 1) == '\u{0}'
            invariant
                n == key_full@.len(),
                0 <= k <= n,
                forall|j: int| k <= j < n ==> key_full@[j] == '\u{0}',
            decreases k,
        {
            k = k - 1;
        }
        proof {
            lemma_trim_nuls_at(key_full@, k as int);
        }
        let key = key_full.as_str().substring_char(0, k).to_owned();
        let idx = u16_from_le_bytes(slice_subrange(bytes, MAX_LEN, MAX_LEN + 2));
        Ok(LinePointer(key, idx))
    }
}

/// A value entry in the page's heap: a 32-bit little-endian byte length,
/// then the value's UTF-8 bytes.
pub struct ValueEntry {
    pub len: u32,
    pub value: String,
}

/// The bytes of a value entry.
pub open spec fn spec_ve_bytes(len: u32, value: Seq<char>) -> Seq<u8> {
    spec_u32_to_le_bytes(len) + encode_utf8(value)
}

impl ValueEntry {
    /// Accepts a value whose byte length fits the length field.
    pub fn from_str(value: &str) -> (r: Result<Self, PersistentLayerError>)
        ensures
            match r {
                Ok(ve) => encode_utf8(value@).len() <= u32::MAX && ve.len == encode_utf8(
                    value@,
                ).len() && ve.value@ == value@,
                Err(e) => encode_utf8(value@).len() > u32::MAX && e == (
                PersistentLayerError::ValueTooLong),
            },
    {
        let value_bytes_vec = value.as_bytes_vec();
        let byte_len = value_bytes_vec.len();
        if byte_len > u32::MAX as usize {
            return Err(PersistentLayerError::ValueTooLong);
        }
        Ok(ValueEntry { len: byte_len as u32, value: value.to_owned() })
    }

    pub fn to_bytes(&self) -> (r: Vec<u8>)
        ensures
            r@ == spec_ve_bytes(self.len, self.value@),
    {
        let mut result = u32_to_le_bytes(self.len);
        let mut v = self.value.as_str().as_bytes_vec();
        result.append(&mut v);
        result
    }

    pub fn from_bytes(bytes: &[u8]) -> (r: Result<Self, PersistentLayerError>)
        ensures
            match r {
                Ok(ve) => {
                    &&& bytes@.len() >= 4
                    &&& ve.len == spec_u32_from_le_bytes(bytes@.subrange(0, 4))
                    &&& 4 + ve.len <= bytes@.len()
                    &&& valid_utf8(bytes@.subrange(4, 4 + ve.len as int))
                    &&& ve.value@ == decode_utf8(bytes@.subrange(4, 4 + ve.len as int))
                },
                Err(PersistentLayerError::Deserialization(_)) => bytes@.len() < 4 || 4
                    + spec_u32_from_le_bytes(bytes@.subrange(0, 4)) > bytes@.len(),
                Err(PersistentLayerError::FailedParsingUTF8) => bytes@.len() >= 4 && 4
                    + spec_u32_from_le_bytes(bytes@.subrange(0, 4)) <= bytes@.len()
                    && !valid_utf8(
                    bytes@.subrange(
                        4,
                        4 + spec_u32_from_le_bytes(bytes@.subrange(0, 4)) as int,
                    ),
                ),
                Err(_) => false,
            },
    {
        if bytes.len() < 4 {
            return Err(
                PersistentLayerError::Deserialization("value entry is too short".to_owned()),
            );
        }
        let len = u32_from_le_bytes(slice_subrange(bytes, 0, 4));
        if len as usize > bytes.len() - 4 {
            return Err(
                PersistentLayerError::Deserialization(
                    "value entry runs past the buffer".to_owned(),
                ),
            );
        }
        let vb = slice_to_vec(slice_subrange(bytes, 4, 4 + len as usize));
        match string_from_utf8(vb) {
            Some(value) => Ok(ValueEntry { len, value }),
            None => Err(PersistentLayerError::FailedParsingUTF8),
        }
    }
}

/// `buf` with `bytes` written at offset `at`.
pub open spec fn overwrite(buf: Seq<u8>, at: int, bytes: Seq<u8>) -> Seq<u8> {
    Seq::new(
        buf.len(),
        |i: int|
            if at <= i < at + bytes.len() {
                bytes[i - at]
            } else {
                buf[i]
            },
    )
}

/// Copies `src` into `buf` starting at `at`.
fn write_bytes(buf: &mut Vec<u8>, at: usize, src: &[u8])
    requires
        at + src@.len() <= old(buf)@.len(),
    ensures
        final(buf)@ == overwrite(old(buf)@, at as int, src@),
{
    let n = buf.len();
    let mut i: usize = 0;
    while i < src.len()
        invariant
            n == buf@.len(),
            at + src@.len() <= buf@.len(),
            0 <= i <= src@.len(),
            buf@ == overwrite(old(buf)@, at as int, src@.take(i as int)),
    decreases src@.len() - i,
    {
        let b = *slice_index_get(src, i);
        buf[at + i] = b;
        i = i + 1;
        proof {
            assert(buf@ =~= overwrite(old(buf)@, at as int, src@.take(i as int)));
        }
    }
    proof {
        assert(src@.take(src@.len() as int) =~= src@);
    }
}

/// The bytes one accepted pair occupies: the fixed-width line pointer and
/// the value entry.
pub open spec fn pair_need(v: Seq<char>) -> int {
    (MAX_KEY + 2) + 4 + encode_utf8(v).len()
}

/// The page builder's fold, from pair `i` on. Each pair is checked (value
/// length, then key length, either failing the whole construction), then
/// placed if it fits between the cursors — the value entry below `upper`,
/// the line pointer at `lower` holding the value's new offset — and pushed
/// onto the overflow list otherwise.
pub open spec fn spec_construct_from(
    pairs: Seq<(String, String)>,
    i: int,
    buf: Seq<u8>,
    lower: int,
    upper: int,
    ovf: Seq<(String, String)>,
) -> Result<(Seq<u8>, int, int, Seq<(String, String)>), PersistentLayerError>
    decreases pairs.len() - i,
{
    if i < 0 || i >= pairs.len() {
        Ok((buf, lower, upper, ovf))
    } else {
        let k = pairs[i].0@;
        let v = pairs[i].1@;
        if encode_utf8(v).len() > u32::MAX {
            Err(PersistentLayerError::ValueTooLong)
        } else if encode_utf8(k).len() > MAX_KEY {
            Err(
                PersistentLayerError::LinePointerLenError(
                    MAX_KEY,
                    encode_utf8(k).len() as usize,
                ),
            )
        } else if upper - lower >= pair_need(v) {
            let vb = spec_ve_bytes(encode_utf8(v).len() as u32, v);
            let new_upper = upper - vb.len();
            let lpb = spec_lp_bytes(k, new_upper as u16, MAX_KEY as int);
            let buf2 = overwrite(overwrite(buf, new_upper, vb), lower, lpb);
            spec_construct_from(
                pairs,
                i + 1,
                buf2,
                lower + (MAX_KEY + 2),
                new_upper,
                ovf,
            )
        } else {
            spec_construct_from(pairs, i + 1, buf, lower, upper, ovf.push(pairs[i]))
        }
    }
}

/// The page builder's fold over a whole pair list, on a zeroed page with
/// the cursors at their initial positions.
pub open spec fn spec_construct(pairs: Seq<(String, String)>) -> Result<
    (Seq<u8>, int, int, Seq<(String, String)>),
    PersistentLayerError,
> {
    spec_construct_from(
        pairs,
        0,
        Seq::new(PAGE_SIZE as nat, |i: int| 0u8),
        HEADER_SIZE as int,
        PAGE_SIZE as int - 1,
        Seq::<(String, String)>::empty(),
    )
}

/// One slotted page: the header and the 8192-byte buffer whose first
/// twelve bytes are written only when the page is serialized.
pub struct Block {
    pub header: Header,
    pub data: Vec<u8>,
}

impl Block {
    /// Builds a page from the pairs in order. Pairs that do not fit are
    /// returned as the overflow list; a key or value too large for the
    /// layout fails the whole construction.
    pub fn construct(init_data: Vec<(String, String)>) -> (r: Result<
        (Block, Vec<(String, String)>),
        PersistentLayerError,
    >)
        ensures
            match spec_construct(init_data@) {
                Ok(st) => r matches Ok(p) && p.0.header == (Header {
                    page_size: PAGE_SIZE,
                    checksum: 0u16,
                    flags: 0u16,
                    lower: st.1 as u16,
                    upper: st.2 as u16,
                    linp: HEADER_SIZE as u16,
                }) && p.0.data@ == st.0 && p.1@ == st.3 && p.0.data@.len() == PAGE_SIZE,
                Err(e) => r == Err::<(Block, Vec<(String, String)>), PersistentLayerError>(e),
            },
    {
        let mut header = Header::new_default();
        let mut byte_block: Vec<u8> = vec![0u8; PAGE_SIZE as usize];
        let mut not_fit_records: Vec<(String, String)> = Vec::new();
        let header_offset: u16 = HEADER_SIZE as u16;
        let upper_cursor: u16 = PAGE_SIZE - 1;
        header.set(HeaderProps::LINP(header_offset));
        header.set(HeaderProps::LOWER(header_offset));
        header.set(HeaderProps::UPPER(upper_cursor));
        proof {
            assert(byte_block@ =~= Seq::new(PAGE_SIZE as nat, |i: int| 0u8));
        }
        let mut i: usize = 0;
        while i < init_data.len()
            invariant
                0 <= i <= init_data@.len(),
                byte_block@.len() == PAGE_SIZE,
                header.page_size == PAGE_SIZE,
                header.checksum == 0u16,
                header.flags == 0u16,
                header.linp == HEADER_SIZE as u16,
                HEADER_SIZE as u16 <= header.lower <= header.upper,
                header.upper <= PAGE_SIZE - 1,
                spec_construct(init_data@) == spec_construct_from(
                    init_data@,
                    i as int,
                    byte_block@,
                    header.lower as int,
                    header.upper as int,
                    not_fit_records@,
                ),
            decreases init_data@.len() - i,
        {
            let value = match ValueEntry::from_str(init_data[i].1.as_str()) {
                Ok(v) => v,
                Err(e) => {
                    return Err(e);
                },
            };
            let value_bytes = value.to_bytes();
            match LinePointer::<MAX_KEY>::new(init_data[i].0.clone(), 0) {
                Ok(_) => {},
                Err(e) => {
                    return Err(e);
                },
            }
            proof {
                vstd::bytes::lemma_auto_spec_u32_to_from_le_bytes();
                assert(value_bytes@.len() == 4 + encode_utf8(init_data@[i as int].1@).len());
            }
            let fits = if value_bytes.len() <= PAGE_SIZE as usize {
                header.is_space_to_write(MAX_KEY + 2 + value_bytes.len())
            } else {
                false
            };
            if fits {
                let new_upper: u16 = header.upper() - value_bytes.len() as u16;
                let lp = LinePointer::<MAX_KEY>(init_data[i].0.clone(), new_upper);
                let lp_bytes = lp.to_bytes();
                let new_lower: u16 = header.lower() + (MAX_KEY + 2) as u16;
                write_bytes(&mut byte_block, new_upper as usize, value_bytes.as_slice());
                write_bytes(&mut byte_block, header.lower() as usize, lp_bytes.as_slice());
                header.set(HeaderProps::LOWER(new_lower));
                header.set(HeaderProps::UPPER(new_upper));
            } else {
                not_fit_records.push((init_data[i].0.clone(), init_data[i].1.clone()));
            }
            i = i + 1;
        }
        let block = Block { header, data: byte_block };
        Ok((block, not_fit_records))
    }

    /// The page as it goes to disk: the twelve header bytes followed by the
    /// buffer's remainder.
    pub fn to_bytes(&self) -> (r: Vec<u8>)
        requires
            self.data@.len() == PAGE_SIZE,
        ensures
            r@ == spec_page_bytes(self.header, self.data@),
            r@.len() == PAGE_SIZE,
    {
        let mut result = self.header.to_bytes();
        let mut rest = slice_to_vec(slice_subrange(self.data.as_slice(), HEADER_SIZE, self.data.len()));
        result.append(&mut rest);
        result
    }

    /// Reads a page back: checks the header, then walks the line pointers
    /// between `linp` and `lower` in fixed strides, following each offset
    /// to its value entry.
    pub fn decode(bytes: &[u8]) -> (r: Result<Vec<(String, String)>, PersistentLayerError>)
        ensures
            match spec_decode_page(bytes@) {
                Ok(ps) => r matches Ok(v) && v@.len() == ps.len() && (forall|j: int|
                    0 <= j < ps.len() ==> ((#[trigger] v@[j]).0@, v@[j].1@) == ps[j]),
                Err(PageDecodeError::BadHeader) => r matches Err(e) && (e matches
                    PersistentLayerError::HeaderError(_)),
                Err(PageDecodeError::OutOfBounds) => r matches Err(e) && (e matches
                    PersistentLayerError::Deserialization(_)),
                Err(PageDecodeError::BadUtf8) => r == Err::<
                    Vec<(String, String)>,
                    PersistentLayerError,
                >(PersistentLayerError::FailedParsingUTF8),
            },
    {
        if bytes.len() < HEADER_SIZE {
            return Err(PersistentLayerError::HeaderError("page shorter than a header".to_owned()));
        }
        let header = match Header::from_bytes(slice_subrange(bytes, 0, HEADER_SIZE)) {
            Ok(h) => h,
            Err(_) => {
                return Err(
                    PersistentLayerError::HeaderError("page shorter than a header".to_owned()),
                );
            },
        };
        proof {
            assert(bytes@.subrange(0, HEADER_SIZE as int).subrange(0, 2) =~= bytes@.subrange(
                0,
                2,
            ));
            assert(bytes@.subrange(0, HEADER_SIZE as int).subrange(2, 4) =~= bytes@.subrange(
                2,
                4,
            ));
            assert(bytes@.subrange(0, HEADER_SIZE as int).subrange(4, 6) =~= bytes@.subrange(
                4,
                6,
            ));
            assert(bytes@.subrange(0, HEADER_SIZE as int).subrange(6, 8) =~= bytes@.subrange(
                6,
                8,
            ));
            assert(bytes@.subrange(0, HEADER_SIZE as int).subrange(8, 10) =~= bytes@.subrange(
                8,
                10,
            ));
            assert(bytes@.subrange(0, HEADER_SIZE as int).subrange(10, 12) =~= bytes@.subrange(
                10,
                12,
            ));
        }
        if header.page_size != PAGE_SIZE {
            return Err(PersistentLayerError::HeaderError("wrong page size".to_owned()));
        }
        if header.lower as usize > bytes.len() {
            return Err(
                PersistentLayerError::Deserialization(
                    "line pointers run past the buffer".to_owned(),
                ),
            );
        }
        let lower = header.lower as usize;
        let mut pairs: Vec<(String, String)> = Vec::new();
        let mut p = header.linp as usize;
        while p + (MAX_KEY + 2) <= lower
            invariant
                lower == spec_header_of(bytes@.subrange(0, HEADER_SIZE as int)).lower,
                lower <= bytes@.len(),
                0 <= p <= 0xFFFF,
                match spec_decode_lps(bytes@, p as int, lower as int) {
                    Ok(rest) => spec_decode_page(bytes@) matches Ok(all) && all.len()
                        == pairs@.len() + rest.len() && (forall|j: int|
                        0 <= j < pairs@.len() ==> ((#[trigger] pairs@[j]).0@, pairs@[j].1@)
                            == all[j]) && (forall|j: int|
                        0 <= j < rest.len() ==> all[pairs@.len() + j] == rest[j]),
                    Err(e) => spec_decode_page(bytes@) == Err::<
                        Seq<(Seq<char>, Seq<char>)>,
                        PageDecodeError,
                    >(e),
                },
            decreases lower - p,
        {
            let lp = match LinePointer::<MAX_KEY>::from_bytes(
                slice_subrange(bytes, p, p + (MAX_KEY + 2)),
            ) {
                Ok(lp) => lp,
                Err(_) => {
                    proof {
                        assert(bytes@.subrange(p as int, p as int + (MAX_KEY + 2) as int)
                            .subrange(0, MAX_KEY as int) =~= bytes@.subrange(
                            p as int,
                            p as int + MAX_KEY as int,
                        ));
                    }
                    return Err(PersistentLayerError::FailedParsingUTF8);
                },
            };
            proof {
                assert(bytes@.subrange(p as int, p as int + (MAX_KEY + 2) as int).subrange(
                    0,
                    MAX_KEY as int,
                ) =~= bytes@.subrange(p as int, p as int + MAX_KEY as int));
                assert(bytes@.subrange(p as int, p as int + (MAX_KEY + 2) as int).subrange(
                    MAX_KEY as int,
                    MAX_KEY as int + 2,
                ) =~= bytes@.subrange(p as int + MAX_KEY as int, p as int + MAX_KEY as int + 2));
            }
            let off = lp.1 as usize;
            if off > bytes.len() || bytes.len() - off < 4 {
                return Err(
                    PersistentLayerError::Deserialization(
                        "value entry runs past the buffer".to_owned(),
                    ),
                );
            }
            let ve = match ValueEntry::from_bytes(slice_subrange(bytes, off, bytes.len())) {
                Ok(ve) => ve,
                Err(e) => {
                    proof {
                        lemma_tail_subranges(bytes@, off as int);
                    }
                    return Err(e);
                },
            };
            let ghost old_pairs = pairs@;
            let ghost kv = (lp.0@, ve.value@);
            proof {
                lemma_tail_subranges(bytes@, off as int);
                assert(spec_decode_lp(bytes@, p as int) == Ok::<
                    (Seq<char>, Seq<char>),
                    PageDecodeError,
                >(kv));
            }
            pairs.push((lp.0, ve.value));
            proof {
                match spec_decode_lps(bytes@, p as int + (MAX_KEY + 2), lower as int) {
                    Ok(rest) => {
                        assert(spec_decode_lps(bytes@, p as int, lower as int) == Ok::<
                            Seq<(Seq<char>, Seq<char>)>,
                            PageDecodeError,
                        >(seq![kv] + rest));
                        let all = spec_decode_page(bytes@)->Ok_0;
                        assert((seq![kv] + rest)[0] == kv);
                        assert(all[old_pairs.len() as int] == kv);
                        assert forall|j: int| 0 <= j < rest.len() implies all[pairs@.len() + j]
                            == rest[j] by {
                            assert(all[old_pairs.len() + (j + 1)] == (seq![kv] + rest)[j + 1]);
                            assert((seq![kv] + rest)[j + 1] == rest[j]);
                        }
                    },
                    Err(_) => {},
                }
            }
            p = p + (MAX_KEY + 2);
        }
        Ok(pairs)
    }
}

/// The serialized page: header bytes, then the rest of the buffer.
pub open spec fn spec_page_bytes(h: Header, data: Seq<u8>) -> Seq<u8> {
    spec_header_bytes(h) + data.skip(HEADER_SIZE as int)
}

/// How reading a page back can fail.
pub enum PageDecodeError {
    /// The buffer is shorter than a header or names the wrong page size.
    BadHeader,
    /// A cursor, pointer or entry runs outside the buffer.
    OutOfBounds,
    /// A key or value is not UTF-8.
    BadUtf8,
}

/// One line pointer at `p` followed to its value entry.
pub open spec fn spec_decode_lp(b: Seq<u8>, p: int) -> Result<
    (Seq<char>, Seq<char>),
    PageDecodeError,
> {
    let kfield = b.subrange(p, p + MAX_KEY as int);
    if !valid_utf8(kfield) {
        Err(PageDecodeError::BadUtf8)
    } else {
        let key = trim_nuls(decode_utf8(kfield));
        let off = spec_u16_from_le_bytes(
            b.subrange(p + MAX_KEY as int, p + MAX_KEY as int + 2),
        ) as int;
        if off + 4 > b.len() {
            Err(PageDecodeError::OutOfBounds)
        } else {
            let vl = spec_u32_from_le_bytes(b.subrange(off, off + 4)) as int;
            if off + 4 + vl > b.len() {
                Err(PageDecodeError::OutOfBounds)
            } else if !valid_utf8(b.subrange(off + 4, off + 4 + vl)) {
                Err(PageDecodeError::BadUtf8)
            } else {
                Ok((key, decode_utf8(b.subrange(off + 4, off + 4 + vl))))
            }
        }
    }
}

/// The pairs named by the line pointers from `p` up to `lower`, in stride
/// order.
pub open spec fn spec_decode_lps(b: Seq<u8>, p: int, lower: int) -> Result<
    Seq<(Seq<char>, Seq<char>)>,
    PageDecodeError,
>
    decreases lower - p,
{
    if p < 0 || p + (MAX_KEY + 2) > lower {
        Ok(Seq::empty())
    } else {
        match spec_decode_lp(b, p) {
            Err(e) => Err(e),
            Ok(kv) => match spec_decode_lps(b, p + (MAX_KEY + 2), lower) {
                Err(e) => Err(e),
                Ok(rest) => Ok(seq![kv] + rest),
            },
        }
    }
}

/// The pairs stored in a serialized page.
pub open spec fn spec_decode_page(b: Seq<u8>) -> Result<
    Seq<(Seq<char>, Seq<char>)>,
    PageDecodeError,
> {
    if b.len() < HEADER_SIZE {
        Err(PageDecodeError::BadHeader)
    } else {
        let h = spec_header_of(b.subrange(0, HEADER_SIZE as int));
        if h.page_size != PAGE_SIZE {
            Err(PageDecodeError::BadHeader)
        } else if h.lower > b.len() {
            Err(PageDecodeError::OutOfBounds)
        } else {
            spec_decode_lps(b, h.linp as int, h.lower as int)
        }
    }
}

/// A successful build never shrinks the overflow list, and grows it by at
/// most one entry per remaining pair.
proof fn lemma_construct_ovf_bounds(
    pairs: Seq<(String, String)>,
    i: int,
    buf: Seq<u8>,
    lower: int,
    upper: int,
    ovf: Seq<(String, String)>,
)
    requires
        0 <= i <= pairs.len(),
        spec_construct_from(pairs, i, buf, lower, upper, ovf) is Ok,
    ensures
        ovf.len() <= spec_construct_from(pairs, i, buf, lower, upper, ovf)->Ok_0.3.len()
            <= ovf.len() + pairs.len() - i,
    decreases pairs.len() - i,
{
    if i < pairs.len() {
        let k = pairs[i].0@;
        let v = pairs[i].1@;
        if encode_utf8(v).len() > u32::MAX || encode_utf8(k).len() > MAX_KEY {
        } else if upper - lower >= pair_need(v) {
            let vb = spec_ve_bytes(encode_utf8(v).len() as u32, v);
            let new_upper = upper - vb.len();
            let lpb = spec_lp_bytes(k, new_upper as u16, MAX_KEY as int);
            let buf2 = overwrite(overwrite(buf, new_upper, vb), lower, lpb);
            lemma_construct_ovf_bounds(pairs, i + 1, buf2, lower + (MAX_KEY + 2), new_upper, ovf);
        } else {
            lemma_construct_ovf_bounds(pairs, i + 1, buf, lower, upper, ovf.push(pairs[i]));
        }
    }
}

/// When every remaining pair overflows, none of them would have fit between
/// the cursors.
proof fn lemma_construct_all_overflow(
    pairs: Seq<(String, String)>,
    i: int,
    buf: Seq<u8>,
    lower: int,
    upper: int,
    ovf: Seq<(String, String)>,
)
    requires
        0 <= i <= pairs.len(),
        spec_construct_from(pairs, i, buf, lower, upper, ovf) matches Ok(st) && st.3.len()
            == ovf.len() + pairs.len() - i,
    ensures
        forall|j: int| i <= j < pairs.len() ==> pair_need((#[trigger] pairs[j]).1@) > upper
            - lower,
    decreases pairs.len() - i,
{
    if i < pairs.len() {
        let k = pairs[i].0@;
        let v = pairs[i].1@;
        if upper - lower >= pair_need(v) {
            let vb = spec_ve_bytes(encode_utf8(v).len() as u32, v);
            let new_upper = upper - vb.len();
            let lpb = spec_lp_bytes(k, new_upper as u16, MAX_KEY as int);
            let buf2 = overwrite(overwrite(buf, new_upper, vb), lower, lpb);
            lemma_construct_ovf_bounds(pairs, i + 1, buf2, lower + (MAX_KEY + 2), new_upper, ovf);
            assert(false);
        } else {
            lemma_construct_all_overflow(pairs, i + 1, buf, lower, upper, ovf.push(pairs[i]));
        }
    }
}

/// Page progress: a build that accepts nothing is only possible when no
/// pair at all fits an empty page, so paging a fittable workload always
/// places at least one pair per page.
pub proof fn lemma_page_progress(pairs: Seq<(String, String)>)
    requires
        spec_construct(pairs) is Ok,
        exists|j: int|
            0 <= j < pairs.len() && pair_need((#[trigger] pairs[j]).1@) <= PAGE_SIZE - 1
                - HEADER_SIZE,
    ensures
        spec_construct(pairs)->Ok_0.3.len() < pairs.len(),
{
    let zero_buf = Seq::new(PAGE_SIZE as nat, |i: int| 0u8);
    let empty_ovf = Seq::<(String, String)>::empty();
    lemma_construct_ovf_bounds(
        pairs,
        0,
        zero_buf,
        HEADER_SIZE as int,
        PAGE_SIZE as int - 1,
        empty_ovf,
    );
    if spec_construct(pairs)->Ok_0.3.len() >= pairs.len() {
        lemma_construct_all_overflow(
            pairs,
            0,
            zero_buf,
            HEADER_SIZE as int,
            PAGE_SIZE as int - 1,
            empty_ovf,
        );
        let j = choose|j: int|
            0 <= j < pairs.len() && pair_need((#[trigger] pairs[j]).1@) <= PAGE_SIZE - 1
                - HEADER_SIZE;
        assert(pair_need(pairs[j].1@) > PAGE_SIZE - 1 - HEADER_SIZE);
    }
}

/// UTF-8 encoding distributes over concatenation.
proof fn lemma_encode_utf8_concat(a: Seq<char>, b: Seq<char>)
    ensures
        encode_utf8(a + b) == encode_utf8(a) + encode_utf8(b),
    decreases a.len(),
{
    if a.len() == 0 {
        assert(a + b =~= b);
        assert(encode_utf8(a) + encode_utf8(b) =~= encode_utf8(b));
    } else {
        assert((a + b).drop_first() =~= a.drop_first() + b);
        lemma_encode_utf8_concat(a.drop_first(), b);
        assert(vstd::utf8::encode_scalar((a + b)[0] as u32) + (encode_utf8(a.drop_first())
            + encode_utf8(b)) =~= encode_utf8(a) + encode_utf8(b));
    }
}

/// `n` NUL characters.
pub open spec fn nul_chars(n: nat) -> Seq<char> {
    Seq::new(n, |i: int| '\u{0}')
}

/// NUL characters encode to zero bytes, one each.
proof fn lemma_encode_nuls(n: nat)
    ensures
        encode_utf8(nul_chars(n)) == Seq::new(n, |i: int| 0u8),
    decreases n,
{
    if n == 0 {
        assert(encode_utf8(nul_chars(0)) =~= Seq::new(0, |i: int| 0u8));
    } else {
        assert(nul_chars(n).drop_first() =~= nul_chars((n - 1) as nat));
        lemma_encode_nuls((n - 1) as nat);
        assert(nul_chars(n)[0] == '\u{0}');
        assert((0u32 & 0x7F) as u8 == 0u8) by (bit_vector);
        assert(vstd::utf8::encode_scalar(0u32) =~= seq![0u8]);
        assert(seq![0u8] + Seq::new((n - 1) as nat, |i: int| 0u8) =~= Seq::new(
            n,
            |i: int| 0u8,
        ));
    }
}

/// A successful build leaves the bytes below the starting `lower` and from
/// the starting `upper` on untouched, and only narrows the cursor gap.
proof fn lemma_construct_preserves(
    pairs: Seq<(String, String)>,
    i: int,
    buf: Seq<u8>,
    lower: int,
    upper: int,
    ovf: Seq<(String, String)>,
)
    requires
        0 <= i <= pairs.len(),
        0 <= lower <= upper < buf.len(),
        spec_construct_from(pairs, i, buf, lower, upper, ovf) is Ok,
    ensures
        ({
            let st = spec_construct_from(pairs, i, buf, lower, upper, ovf)->Ok_0;
            &&& st.0.len() == buf.len()
            &&& lower <= st.1 <= st.2 <= upper
            &&& (forall|k: int| 0 <= k < lower ==> st.0[k] == buf[k])
            &&& (forall|k: int| upper <= k < buf.len() ==> st.0[k] == buf[k])
        }),
    decreases pairs.len() - i,
{
    vstd::bytes::lemma_auto_spec_u16_to_from_le_bytes();
    vstd::bytes::lemma_auto_spec_u32_to_from_le_bytes();
    if i < pairs.len() {
        let k = pairs[i].0@;
        let v = pairs[i].1@;
        if encode_utf8(v).len() > u32::MAX || encode_utf8(k).len() > MAX_KEY {
        } else if upper - lower >= pair_need(v) {
            let vb = spec_ve_bytes(encode_utf8(v).len() as u32, v);
            let new_upper = upper - vb.len();
            let lpb = spec_lp_bytes(k, new_upper as u16, MAX_KEY as int);
            let buf2 = overwrite(overwrite(buf, new_upper, vb), lower, lpb);
            assert(lpb.len() == MAX_KEY + 2);
            assert(buf2.len() == buf.len());
            lemma_construct_preserves(
                pairs,
                i + 1,
                buf2,
                lower + (MAX_KEY + 2),
                new_upper,
                ovf,
            );
            assert(forall|kk: int| 0 <= kk < lower ==> buf2[kk] == buf[kk]);
            assert(forall|kk: int| upper <= kk < buf.len() ==> buf2[kk] == buf[kk]);
        } else {
            lemma_construct_preserves(pairs, i + 1, buf, lower, upper, ovf.push(pairs[i]));
        }
    }
}

/// A key with no trailing NUL of its own.
pub open spec fn key_clean(k: Seq<char>) -> bool {
    k.len() == 0 || k.last() != '\u{0}'
}

/// The views of a pair list as the decoder returns them.
pub open spec fn pair_views(pairs: Seq<(String, String)>) -> Seq<(Seq<char>, Seq<char>)> {
    pairs.map_values(|pr: (String, String)| (pr.0@, pr.1@))
}

/// Walking the line pointers of the finished page, from the position where
/// the build started, recovers exactly the pairs the build placed there.
#[verifier::rlimit(100)]
proof fn lemma_construct_decodes(
    pairs: Seq<(String, String)>,
    i: int,
    buf: Seq<u8>,
    lower: int,
    upper: int,
    ovf: Seq<(String, String)>,
    full: Seq<u8>,
)
    requires
        0 <= i <= pairs.len(),
        HEADER_SIZE <= lower <= upper <= PAGE_SIZE - 1,
        buf.len() == PAGE_SIZE,
        spec_construct_from(pairs, i, buf, lower, upper, ovf) matches Ok(st) && st.3.len()
            == ovf.len(),
        forall|j: int| i <= j < pairs.len() ==> key_clean((#[trigger] pairs[j]).0@),
        full.len() == PAGE_SIZE,
        forall|kk: int|
            HEADER_SIZE <= kk < PAGE_SIZE ==> full[kk] == spec_construct_from(
                pairs,
                i,
                buf,
                lower,
                upper,
                ovf,
            )->Ok_0.0[kk],
    ensures
        ({
            let st = spec_construct_from(pairs, i, buf, lower, upper, ovf)->Ok_0;
            spec_decode_lps(full, lower, st.1) matches Ok(ds) && ds
                == pair_views(pairs.skip(i))
        }),
    decreases pairs.len() - i,
{
    vstd::bytes::lemma_auto_spec_u16_to_from_le_bytes();
    vstd::bytes::lemma_auto_spec_u32_to_from_le_bytes();
    let st = spec_construct_from(pairs, i, buf, lower, upper, ovf)->Ok_0;
    if i >= pairs.len() {
        assert(spec_decode_lps(full, lower, st.1) == Ok::<
            Seq<(Seq<char>, Seq<char>)>,
            PageDecodeError,
        >(Seq::empty()));
        assert(pair_views(pairs.skip(i)) =~= Seq::<(Seq<char>, Seq<char>)>::empty());
    } else {
        let k = pairs[i].0@;
        let v = pairs[i].1@;
        let kb = encode_utf8(k);
        let vlen = encode_utf8(v).len();
        if vlen > u32::MAX || kb.len() > MAX_KEY {
            assert(false);
        } else if upper - lower >= pair_need(v) {
            let vb = spec_ve_bytes(vlen as u32, v);
            let nu = upper - vb.len();
            let lpb = spec_lp_bytes(k, nu as u16, MAX_KEY as int);
            let buf2 = overwrite(overwrite(buf, nu, vb), lower, lpb);
            assert(vb.len() == 4 + vlen);
            assert(lpb.len() == MAX_KEY + 2);
            assert(lower + (MAX_KEY + 2) <= nu);
            lemma_construct_preserves(pairs, i + 1, buf2, lower + (MAX_KEY + 2), nu, ovf);
            lemma_construct_decodes(pairs, i + 1, buf2, lower + (MAX_KEY + 2), nu, ovf, full);
            // the line pointer's bytes survive in the final buffer
            assert forall|t: int| 0 <= t < MAX_KEY + 2 implies #[trigger] full[lower + t]
                == lpb[t] by {
                assert(buf2[lower + t] == lpb[t]);
                assert(st.0[lower + t] == buf2[lower + t]);
                assert(full[lower + t] == st.0[lower + t]);
            }
            // so does the value entry
            assert forall|t: int| 0 <= t < vb.len() implies #[trigger] full[nu + t]
                == vb[t] by {
                assert(buf2[nu + t] == vb[t]);
                assert(st.0[nu + t] == buf2[nu + t]);
                assert(full[nu + t] == st.0[nu + t]);
            }
            // the key field holds the key's bytes padded with zeros
            let pad = (MAX_KEY - kb.len()) as nat;
            let kfield = full.subrange(lower, lower + MAX_KEY as int);
            lemma_encode_nuls(pad);
            lemma_encode_utf8_concat(k, nul_chars(pad));
            assert(encode_utf8(k + nul_chars(pad)) == kb + Seq::new(pad, |t: int| 0u8));
            assert forall|t: int| 0 <= t < MAX_KEY implies #[trigger] (kfield[t]) == encode_utf8(
                k + nul_chars(pad),
            )[t] by {
                assert(kfield[t] == full[lower + t]);
                assert(full[lower + t] == lpb[t]);
                assert(lpb[t] == (kb + Seq::new(pad, |q: int| 0u8))[t]);
            }
            assert(kfield =~= encode_utf8(k + nul_chars(pad)));
            broadcast use vstd::utf8::encode_utf8_valid_utf8;
            broadcast use vstd::utf8::encode_utf8_decode_utf8;

            assert(valid_utf8(kfield));
            assert(decode_utf8(kfield) == k + nul_chars(pad));
            lemma_trim_nuls_at(k + nul_chars(pad), k.len() as int);
            assert((k + nul_chars(pad)).subrange(0, k.len() as int) =~= k);
            // the stored offset points at the value entry
            vstd::bytes::lemma_auto_spec_u16_to_from_le_bytes();
            vstd::bytes::lemma_auto_spec_u32_to_from_le_bytes();
            assert forall|t: int|
                0 <= t < 2 implies #[trigger] (full.subrange(
                lower + MAX_KEY as int,
                lower + MAX_KEY as int + 2,
            )[t]) == spec_u16_to_le_bytes(nu as u16)[t] by {
                let tt = MAX_KEY as int + t;
                assert(full.subrange(lower + MAX_KEY as int, lower + MAX_KEY as int + 2)[t]
                    == full[lower + tt]);
                assert(full[lower + tt] == lpb[tt]);
                assert(lpb[tt] == spec_u16_to_le_bytes(nu as u16)[t]);
            }
            assert(full.subrange(lower + MAX_KEY as int, lower + MAX_KEY as int + 2)
                =~= spec_u16_to_le_bytes(nu as u16));
            assert((nu as u16) as int == nu);
            assert forall|t: int| 0 <= t < 4 implies #[trigger] (full.subrange(nu, nu + 4)[t])
                == spec_u32_to_le_bytes(vlen as u32)[t] by {
                assert(full.subrange(nu, nu + 4)[t] == full[nu + t]);
                assert(full[nu + t] == vb[t]);
            }
            assert(full.subrange(nu, nu + 4) =~= spec_u32_to_le_bytes(vlen as u32));
            assert forall|t: int| 0 <= t < vlen implies #[trigger] (full.subrange(
                nu + 4,
                nu + 4 + vlen as int,
            )[t]) == encode_utf8(v)[t] by {
                let tt = 4 + t;
                assert(full.subrange(nu + 4, nu + 4 + vlen as int)[t] == full[nu + tt]);
                assert(full[nu + tt] == vb[tt]);
                assert(vb[tt] == encode_utf8(v)[t]);
            }
            assert(full.subrange(nu + 4, nu + 4 + vlen as int) =~= encode_utf8(v));
            assert(valid_utf8(encode_utf8(v)));
            assert(decode_utf8(encode_utf8(v)) == v);
            assert(spec_decode_lp(full, lower) == Ok::<(Seq<char>, Seq<char>), PageDecodeError>(
                (k, v),
            ));
            assert(lower + (MAX_KEY + 2) <= st.1);
            let rest = spec_decode_lps(full, lower + (MAX_KEY + 2), st.1)->Ok_0;
            assert(spec_decode_lps(full, lower, st.1) == Ok::<
                Seq<(Seq<char>, Seq<char>)>,
                PageDecodeError,
            >(seq![(k, v)] + rest));
            assert(seq![(k, v)] + pair_views(pairs.skip(i + 1)) =~= pair_views(
                pairs.skip(i),
            ));
        } else {
            lemma_construct_ovf_bounds(pairs, i + 1, buf, lower, upper, ovf.push(pairs[i]));
            assert(false);
        }
    }
}

/// Page round trip: a pair list accepted with no overflow decodes from the
/// serialized page to exactly the same pairs, in order. Keys must not end
/// in NUL characters of their own, which the padded key field could not
/// tell from padding.
pub proof fn lemma_page_round_trip(pairs: Seq<(String, String)>)
    requires
        spec_construct(pairs) matches Ok(st) && st.3.len() == 0,
        forall|j: int| 0 <= j < pairs.len() ==> key_clean((#[trigger] pairs[j]).0@),
    ensures
        ({
            let st = spec_construct(pairs)->Ok_0;
            let hdr = Header {
                page_size: PAGE_SIZE,
                checksum: 0u16,
                flags: 0u16,
                lower: st.1 as u16,
                upper: st.2 as u16,
                linp: HEADER_SIZE as u16,
            };
            spec_decode_page(spec_page_bytes(hdr, st.0)) matches Ok(ds) && ds == pair_views(
                pairs,
            )
        }),
{
    vstd::bytes::lemma_auto_spec_u16_to_from_le_bytes();
    vstd::bytes::lemma_auto_spec_u32_to_from_le_bytes();
    let st = spec_construct(pairs)->Ok_0;
    let zero_buf = Seq::new(PAGE_SIZE as nat, |i: int| 0u8);
    let empty_ovf = Seq::<(String, String)>::empty();
    let hdr = Header {
        page_size: PAGE_SIZE,
        checksum: 0u16,
        flags: 0u16,
        lower: st.1 as u16,
        upper: st.2 as u16,
        linp: HEADER_SIZE as u16,
    };
    lemma_construct_preserves(
        pairs,
        0,
        zero_buf,
        HEADER_SIZE as int,
        PAGE_SIZE as int - 1,
        empty_ovf,
    );
    let full = spec_page_bytes(hdr, st.0);
    assert(full.len() == PAGE_SIZE);
    vstd::bytes::lemma_auto_spec_u16_to_from_le_bytes();
    assert(full.subrange(0, 2) =~= spec_u16_to_le_bytes(hdr.page_size));
    assert(full.subrange(2, 4) =~= spec_u16_to_le_bytes(hdr.checksum));
    assert(full.subrange(4, 6) =~= spec_u16_to_le_bytes(hdr.flags));
    assert(full.subrange(6, 8) =~= spec_u16_to_le_bytes(hdr.lower));
    assert(full.subrange(8, 10) =~= spec_u16_to_le_bytes(hdr.upper));
    assert(full.subrange(10, 12) =~= spec_u16_to_le_bytes(hdr.linp));
    assert(full.subrange(0, HEADER_SIZE as int).subrange(0, 2) =~= full.subrange(0, 2));
    assert(full.subrange(0, HEADER_SIZE as int).subrange(2, 4) =~= full.subrange(2, 4));
    assert(full.subrange(0, HEADER_SIZE as int).subrange(4, 6) =~= full.subrange(4, 6));
    assert(full.subrange(0, HEADER_SIZE as int).subrange(6, 8) =~= full.subrange(6, 8));
    assert(full.subrange(0, HEADER_SIZE as int).subrange(8, 10) =~= full.subrange(8, 10));
    assert(full.subrange(0, HEADER_SIZE as int).subrange(10, 12) =~= full.subrange(10, 12));
    let h2 = spec_header_of(full.subrange(0, HEADER_SIZE as int));
    assert(h2.page_size == PAGE_SIZE);
    assert(h2.lower == st.1 as u16);
    assert((st.1 as u16) as int == st.1);
    assert(forall|kk: int|
        HEADER_SIZE <= kk < PAGE_SIZE ==> #[trigger] full[kk] == st.0[kk]);
    lemma_construct_decodes(
        pairs,
        0,
        zero_buf,
        HEADER_SIZE as int,
        PAGE_SIZE as int - 1,
        empty_ovf,
        full,
    );
    assert(pairs.skip(0) =~= pairs);
}

/// Subranges of a tail slice seen as subranges of the whole buffer.
proof fn lemma_tail_subranges(b: Seq<u8>, off: int)
    requires
        0 <= off,
        off + 4 <= b.len(),
    ensures
        b.subrange(off, b.len() as int).subrange(0, 4) =~= b.subrange(off, off + 4),
        forall|l: int|
            0 <= l && off + 4 + l <= b.len() ==> #[trigger] b.subrange(
                off,
                b.len() as int,
            ).subrange(4, 4 + l) =~= b.subrange(off + 4, off + 4 + l),
{
    assert forall|l: int| 0 <= l && off + 4 + l <= b.len() implies #[trigger] b.subrange(
        off,
        b.len() as int,
    ).subrange(4, 4 + l) =~= b.subrange(off + 4, off + 4 + l) by {
        assert(b.subrange(off, b.len() as int).subrange(4, 4 + l) =~= b.subrange(
            off + 4,
            off + 4 + l,
        ));
    }
}

} // verus!
