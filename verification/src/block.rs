use vstd::prelude::*;
use vstd::string::StringExecFns;

verus! {

/// The abstract value of a [`Block`]: its five fields, with the strings
/// seen as character sequences.
pub ghost struct BlockModel {
    pub index: int,
    pub timestamp: int,
    pub data: Seq<char>,
    pub previous_hash: Seq<char>,
    pub hash: Seq<char>,
}

/// One entry of the chain: an opaque payload, a link to its predecessor,
/// and a content fingerprint.
#[derive(Debug)]
pub struct Block {
    pub index: i32,
    pub timestamp: u64,
    pub data: String,
    pub previous_hash: String,
    pub hash: String,
}

impl View for Block {
    type V = BlockModel;

    open spec fn view(&self) -> BlockModel {
        BlockModel {
            index: self.index as int,
            timestamp: self.timestamp as int,
            data: self.data@,
            previous_hash: self.previous_hash@,
            hash: self.hash@,
        }
    }
}

/// The hexadecimal digest that fingerprinting a block's first four
/// fields produces. A fixed function of those fields alone.
pub uninterp spec fn fingerprint_of(
    index: int,
    timestamp: int,
    data: Seq<char>,
    previous_hash: Seq<char>,
) -> Seq<char>;

/// Relies on `crypto::sha2::Sha256` (through `crypto::digest::Digest`):
/// the hex digest of the concatenated rendering of the four fields
/// depends on those fields alone.
#[verifier::external_body]
fn fingerprint(index: i32, timestamp: u64, data: &str, previous_hash: &str) -> (r: String)
    ensures
        r@ == fingerprint_of(index as int, timestamp as int, data@, previous_hash@),
{
    let mut sha256 = crypto::sha2::Sha256::new();
    let source = format!("{}{}{}{}", index, timestamp, data, previous_hash);
    crypto::digest::Digest::input_str(&mut sha256, source.as_str());
    crypto::digest::Digest::result_str(&mut sha256)
}

impl Block {
    /// A block is well formed when its stored hash really is the
    /// fingerprint of its other four fields.
    pub open spec fn wf(self) -> bool {
        self@.hash == fingerprint_of(self@.index, self@.timestamp, self@.data, self@.previous_hash)
    }

    /// Builds a fully populated block whose hash is the fingerprint of
    /// the four given fields.
    pub fn new(index: i32, timestamp: u64, data: &str, previous_hash: &str) -> (b: Block)
        ensures
            b@.index == index as int,
            b@.timestamp == timestamp as int,
            b@.data == data@,
            b@.previous_hash == previous_hash@,
            b@.hash == fingerprint_of(index as int, timestamp as int, data@, previous_hash@),
            b.wf(),
    {
        Block {
            index,
            timestamp,
            data: String::from_str(data),
            previous_hash: String::from_str(previous_hash),
            hash: fingerprint(index, timestamp, data, previous_hash),
        }
    }
}

impl Clone for Block {
    fn clone(&self) -> (r: Block)
        ensures
            r == *self,
    {
        Block {
            index: self.index,
            timestamp: self.timestamp,
            data: self.data.clone(),
            previous_hash: self.previous_hash.clone(),
            hash: self.hash.clone(),
        }
    }
}

/// The first block of a chain: index 0, predecessor link `"0"`.
pub fn create_genesis_block(data: &str, timestamp: u64) -> (b: Block)
    ensures
        b@.index == 0,
        b@.timestamp == timestamp as int,
        b@.data == data@,
        b@.previous_hash == "0"@,
        b.wf(),
{
    Block::new(0, timestamp, data, "0")
}

/// The fingerprint is deterministic: blocks built from equal fields
/// carry equal hashes.
pub proof fn lemma_fingerprint_deterministic(a: BlockModel, b: BlockModel)
    requires
        a.index == b.index,
        a.timestamp == b.timestamp,
        a.data == b.data,
        a.previous_hash == b.previous_hash,
    ensures
        fingerprint_of(a.index, a.timestamp, a.data, a.previous_hash) == fingerprint_of(
            b.index,
            b.timestamp,
            b.data,
            b.previous_hash,
        ),
{
}

} // verus!
