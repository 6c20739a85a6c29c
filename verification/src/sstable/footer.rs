//! The end of a table file: what is in it and where.

use vstd::prelude::*;

use crate::common::error::{unexpected_eof, DbError, DbResult, Fault};
use crate::sstable::encode;
use crate::sstable::encode::{get_u32, get_u64, put_u32, put_u64};

verus! {

/// Bytes of a footer.
pub const FOOTER_LEN: usize = 56;

/// The number that ends a table file.
pub const MAGIC: u32 = 0x5354_424C;

/// What a table file says of itself.
#[derive(Clone, Copy, Debug, PartialEq, Eq, Structural)]
pub struct Footer {
    /// Number of entries.
    pub entries: u64,
    /// Where the filter begins.
    pub bloom_off: u64,
    /// How long the filter is.
    pub bloom_len: u32,
    /// Where the index begins.
    pub index_off: u64,
    /// How long the index is.
    pub index_len: u32,
    /// Number of blocks.
    pub index_count: u32,
    /// Lowest sequence number in the table.
    pub smallest_seq: u64,
    /// Highest sequence number in the table. The next sequence number after a
    /// restart is above that of every table and every log, so that a log may be
    /// deleted once its entries stand in a table.
    pub largest_seq: u64,
    /// [`MAGIC`].
    pub magic: u32,
}

impl Footer {
    /// The bytes in a file.
    pub open spec fn bytes(self) -> Seq<u8> {
        encode::be(self.entries as nat, 8) + encode::be(self.bloom_off as nat, 8) + encode::be(
            self.bloom_len as nat,
            4,
        ) + encode::be(self.index_off as nat, 8) + encode::be(self.index_len as nat, 4)
            + encode::be(self.index_count as nat, 4) + encode::be(self.smallest_seq as nat, 8)
            + encode::be(self.largest_seq as nat, 8) + encode::be(self.magic as nat, 4)
    }

    /// The footer that the 56 bytes at `at` denote.
    pub open spec fn at(data: Seq<u8>, at: int) -> Footer {
        Footer {
            entries: encode::number_at(data, at, 8) as u64,
            bloom_off: encode::number_at(data, at + 8, 8) as u64,
            bloom_len: encode::number_at(data, at + 16, 4) as u32,
            index_off: encode::number_at(data, at + 20, 8) as u64,
            index_len: encode::number_at(data, at + 28, 4) as u32,
            index_count: encode::number_at(data, at + 32, 4) as u32,
            smallest_seq: encode::number_at(data, at + 36, 8) as u64,
            largest_seq: encode::number_at(data, at + 44, 8) as u64,
            magic: encode::number_at(data, at + 52, 4) as u32,
        }
    }

    /// What reading a footer at `at` gives.
    pub open spec fn parsed(data: Seq<u8>, at: int) -> Result<Footer, Fault> {
        if at + 56 > data.len() {
            Err(Fault::Eof)
        } else if Footer::at(data, at).magic != MAGIC {
            Err(Fault::State("bad sstable magic"@))
        } else {
            Ok(Footer::at(data, at))
        }
    }

    /// Appends the footer.
    pub fn write_to_buf(&self, buffer: &mut Vec<u8>)
        ensures
            final(buffer)@ == old(buffer)@ + self.bytes(),
    {
        put_u64(buffer, self.entries);
        put_u64(buffer, self.bloom_off);
        put_u32(buffer, self.bloom_len);
        put_u64(buffer, self.index_off);
        put_u32(buffer, self.index_len);
        put_u32(buffer, self.index_count);
        put_u64(buffer, self.smallest_seq);
        put_u64(buffer, self.largest_seq);
        put_u32(buffer, self.magic);
        assert(buffer@ =~= old(buffer)@ + self.bytes());
    }

    /// Reads the footer at `at`.
    pub fn read(data: &[u8], at: usize) -> (r: DbResult<Self>)
        requires
            at <= data@.len(),
        ensures
            r matches Ok(f) ==> Footer::parsed(data@, at as int) == Ok::<Footer, Fault>(f),
            r matches Err(e) ==> Footer::parsed(data@, at as int) matches Err(f) && e.reports(f),
    {
        if data.len() - at < FOOTER_LEN {
            return Err(DbError::IO(unexpected_eof()));
        }
        let footer = Self {
            entries: get_u64(data, at),
            bloom_off: get_u64(data, at + 8),
            bloom_len: get_u32(data, at + 16),
            index_off: get_u64(data, at + 20),
            index_len: get_u32(data, at + 28),
            index_count: get_u32(data, at + 32),
            smallest_seq: get_u64(data, at + 36),
            largest_seq: get_u64(data, at + 44),
            magic: get_u32(data, at + 52),
        };
        if footer.magic != MAGIC {
            return Err(DbError::invalid_state("bad sstable magic"));
        }
        Ok(footer)
    }
}

impl From<Footer> for Vec<u8> {
    fn from(value: Footer) -> (r: Self)
        ensures
            r@ == value.bytes(),
    {
        let mut buffer: Vec<u8> = Vec::new();
        value.write_to_buf(&mut buffer);
        assert(buffer@ =~= value.bytes());
        buffer
    }
}

impl vstd::std_specs::convert::FromSpecImpl<Footer> for Vec<u8> {
    open spec fn obeys_from_spec() -> bool {
        false
    }

    open spec fn from_spec(v: Footer) -> Self {
        arbitrary()
    }
}

/// A footer takes 56 bytes.
pub proof fn lemma_footer_len(f: Footer)
    ensures
        f.bytes().len() == FOOTER_LEN,
{
    encode::lemma_be(f.entries as nat, 8);
    encode::lemma_be(f.bloom_off as nat, 8);
    encode::lemma_be(f.bloom_len as nat, 4);
    encode::lemma_be(f.index_off as nat, 8);
    encode::lemma_be(f.index_len as nat, 4);
    encode::lemma_be(f.index_count as nat, 4);
    encode::lemma_be(f.smallest_seq as nat, 8);
    encode::lemma_be(f.largest_seq as nat, 8);
    encode::lemma_be(f.magic as nat, 4);
}

/// A footer that was written is read back.
pub proof fn law_footer_round_trip(data: Seq<u8>, at: int, f: Footer)
    requires
        0 <= at,
        at + 56 <= data.len(),
        data.subrange(at, at + 56) == f.bytes(),
        f.magic == MAGIC,
    ensures
        Footer::parsed(data, at) == Ok::<Footer, Fault>(f),
{
    encode::lemma_be_limits();
    encode::lemma_be(f.entries as nat, 8);
    encode::lemma_be(f.bloom_off as nat, 8);
    encode::lemma_be(f.bloom_len as nat, 4);
    encode::lemma_be(f.index_off as nat, 8);
    encode::lemma_be(f.index_len as nat, 4);
    encode::lemma_be(f.index_count as nat, 4);
    encode::lemma_be(f.smallest_seq as nat, 8);
    encode::lemma_be(f.largest_seq as nat, 8);
    encode::lemma_be(f.magic as nat, 4);
    let s = data.subrange(at, at + 56);
    assert(data.subrange(at, at + 8) =~= s.subrange(0, 8));
    assert(s.subrange(0, 8) =~= encode::be(f.entries as nat, 8));
    assert(data.subrange(at + 8, at + 16) =~= s.subrange(8, 16));
    assert(s.subrange(8, 16) =~= encode::be(f.bloom_off as nat, 8));
    assert(data.subrange(at + 16, at + 20) =~= s.subrange(16, 20));
    assert(s.subrange(16, 20) =~= encode::be(f.bloom_len as nat, 4));
    assert(data.subrange(at + 20, at + 28) =~= s.subrange(20, 28));
    assert(s.subrange(20, 28) =~= encode::be(f.index_off as nat, 8));
    assert(data.subrange(at + 28, at + 32) =~= s.subrange(28, 32));
    assert(s.subrange(28, 32) =~= encode::be(f.index_len as nat, 4));
    assert(data.subrange(at + 32, at + 36) =~= s.subrange(32, 36));
    assert(s.subrange(32, 36) =~= encode::be(f.index_count as nat, 4));
    assert(data.subrange(at + 36, at + 44) =~= s.subrange(36, 44));
    assert(s.subrange(36, 44) =~= encode::be(f.smallest_seq as nat, 8));
    assert(data.subrange(at + 44, at + 52) =~= s.subrange(44, 52));
    assert(s.subrange(44, 52) =~= encode::be(f.largest_seq as nat, 8));
    assert(data.subrange(at + 52, at + 56) =~= s.subrange(52, 56));
    assert(s.subrange(52, 56) =~= encode::be(f.magic as nat, 4));
}

/// Where the numbers of a footer stand among its 56 bytes.
pub proof fn law_footer_layout(f: Footer)
    ensures
        ({
            let b = f.bytes();
            &&& b.len() == 56
            &&& encode::from_be(b.subrange(0, 8)) == f.entries
            &&& encode::from_be(b.subrange(8, 16)) == f.bloom_off
            &&& encode::from_be(b.subrange(16, 20)) == f.bloom_len
            &&& encode::from_be(b.subrange(20, 28)) == f.index_off
            &&& encode::from_be(b.subrange(28, 32)) == f.index_len
            &&& encode::from_be(b.subrange(32, 36)) == f.index_count
            &&& encode::from_be(b.subrange(36, 44)) == f.smallest_seq
            &&& encode::from_be(b.subrange(44, 52)) == f.largest_seq
            &&& encode::from_be(b.subrange(52, 56)) == f.magic
        }),
{
    let b = f.bytes();
    encode::lemma_be_limits();
    encode::lemma_be(f.entries as nat, 8);
    encode::lemma_be(f.bloom_off as nat, 8);
    encode::lemma_be(f.bloom_len as nat, 4);
    encode::lemma_be(f.index_off as nat, 8);
    encode::lemma_be(f.index_len as nat, 4);
    encode::lemma_be(f.index_count as nat, 4);
    encode::lemma_be(f.smallest_seq as nat, 8);
    encode::lemma_be(f.largest_seq as nat, 8);
    encode::lemma_be(f.magic as nat, 4);
    assert(b.subrange(0, 8) =~= encode::be(f.entries as nat, 8));
    assert(b.subrange(8, 16) =~= encode::be(f.bloom_off as nat, 8));
    assert(b.subrange(16, 20) =~= encode::be(f.bloom_len as nat, 4));
    assert(b.subrange(20, 28) =~= encode::be(f.index_off as nat, 8));
    assert(b.subrange(28, 32) =~= encode::be(f.index_len as nat, 4));
    assert(b.subrange(32, 36) =~= encode::be(f.index_count as nat, 4));
    assert(b.subrange(36, 44) =~= encode::be(f.smallest_seq as nat, 8));
    assert(b.subrange(44, 52) =~= encode::be(f.largest_seq as nat, 8));
    assert(b.subrange(52, 56) =~= encode::be(f.magic as nat, 4));
}

} // verus!
