//! The ECRS codec: splitting a file into encrypted data blocks, building the
//! index-block tree over them, and reassembling the file from the block
//! files.
//!
//! Every block is encrypted under the double hash of its own plaintext, so
//! identical content yields identical keys (convergent encryption); the
//! SHA3-512 of the ciphertext is the block's self-verifying DHT address.

use vstd::prelude::*;
use vstd::pervasive::VecAdditionalExecFns;
use std::collections::VecDeque;
use crate::block_file::{BlockFile, BlockFileV};
use crate::block_header::BlockHeader;
use crate::block_type::BlockType;
use crate::chk::{CHK, ChkV, spec_serialize_chk, spec_parse_chk, lemma_chk_round_trip};
use crate::crypto::{sha3_512, sha3_256, encrypt_chacha20_poly1305, decrypt_chacha20_poly1305,
    sha3_512_of, sha3_256_of, chacha_encrypt_of, chacha_decrypt_of};
use crate::d_block::{DBlock, DBlockV, spec_serialize_d_block, spec_parse_d_block,
    lemma_d_block_round_trip, MAX_ENCRYPTED_DBLOCK_BUFFER_SIZE};
use crate::i_block::{IBlock, IBlockV, spec_serialize_i_block, spec_parse_i_block,
    lemma_i_block_round_trip, lemma_parse_i_block_chks_wf, MAX_ENCRYPTED_IBLOCK_BUFFER_SIZE,
    MAX_FILE_NAME_BYTES};
use crate::metadata::{MetaData, MetaDataV};
use crate::sizing::{DBLOCK_SIZE_IN_BYTES, IBLOCK_CHK_CAPACITY, calculate_d_block_count,
    calculate_total_i_block_count, calculate_depth_zero_i_block_count, spec_d_block_count,
    spec_total_i_block_count, spec_sum_of_higher_widths, next_width, spec_width_at,
    spec_depth_zero_width, lemma_sum_of_higher_widths_le, lemma_next_width_shrinks,
    lemma_group_count, lemma_group_start, lemma_ceil_div_le, lemma_depth_zero_is_ceil,
    lemma_next_width_is_ceil, lemma_width_step, lemma_chain_height_width,
    lemma_root_level_unique, lemma_sum_chain_bound, spec_chain_height, lemma_ceil_div_covers};
use crate::codec::copy_range;
use crate::CoreError;

verus! {

/// The bytes of the `i`-th data-block chunk of a file.
pub open spec fn spec_chunk(file: Seq<u8>, i: int) -> Seq<u8> {
    if (i + 1) * DBLOCK_SIZE_IN_BYTES <= file.len() {
        file.subrange(i * DBLOCK_SIZE_IN_BYTES, (i + 1) * DBLOCK_SIZE_IN_BYTES)
    } else {
        file.subrange(i * DBLOCK_SIZE_IN_BYTES, file.len() as int)
    }
}

/// The archived plaintext of the `i`-th data block of a file.
pub open spec fn spec_d_block_plain(file: Seq<u8>, i: int) -> Seq<u8> {
    spec_serialize_d_block(
        DBlockV {
            header: BlockHeader { block_type: BlockType::DBlock.code() },
            data: spec_chunk(file, i),
        },
    )
}

/// The encryption key of the `i`-th data block: the double hash of its
/// plaintext. It depends on the file's content alone.
pub open spec fn spec_d_block_key(file: Seq<u8>, i: int) -> Seq<u8> {
    sha3_256_of(sha3_512_of(spec_d_block_plain(file, i)))
}

/// What a data-block CHK of an encoding promises: the key is the convergent
/// key of chunk `i`, the ciphertext in the data block-file opens to chunk
/// `i`'s plaintext, and the query hash names the ciphertext.
pub open spec fn spec_d_chk_ok(c: ChkV, file: Seq<u8>, i: int, cipher: Seq<u8>) -> bool {
    &&& c.wf()
    &&& c.block_type == BlockType::DBlock.code()
    &&& c.bf_index == i
    &&& c.key == spec_d_block_key(file, i)
    &&& c.query == sha3_512_of(cipher)
    &&& cipher == chacha_encrypt_of(c.key, c.iv, spec_d_block_plain(file, i))
    &&& cipher.len() == spec_d_block_plain(file, i).len()
}

/// Width of tree level `level` for a file of `len` bytes: level zero is the
/// data blocks, level one the index blocks over them, and so on up to the
/// root level, whose width is one; levels past the root are empty.
pub open spec fn spec_level_width(len: nat, level: nat) -> nat {
    if level == 0 {
        spec_d_block_count(len)
    } else {
        spec_width_at(spec_depth_zero_width(spec_d_block_count(len)), (level - 1) as nat)
    }
}

/// How many children the `m`-th index block of tree level `level` holds: a
/// full complement of 256, except the last block of the level, which takes
/// what remains of the level below.
pub open spec fn spec_child_count(len: nat, level: nat, m: int) -> int {
    let below = spec_level_width(len, (level - 1) as nat) as int;
    if below - 256 * m >= 256 {
        256
    } else {
        below - 256 * m
    }
}

/// The archived index block that a CHK opens at an index slot: the slot's
/// ciphertext, decrypted under the CHK's key and IV, parsed as an index
/// block.
pub open spec fn spec_node_block(c: ChkV, cipher: Seq<u8>) -> IBlockV {
    spec_parse_i_block(chacha_decrypt_of(c.key, c.iv, cipher)).unwrap()
}

/// What a CHK of an encoding seals, by tree level. At level zero it is a
/// data-block CHK opening data slot `m` to chunk `m` of the file. At higher
/// levels it is an index-block CHK whose slot in the index block-file is
/// fixed by the level layout, whose ciphertext slot decrypts under the
/// CHK's key and IV to an archived index block carrying the file's metadata
/// exactly when the node is the root (slot zero), and whose child CHKs seal
/// the matching nodes one level down.
#[verifier::opaque]
pub open spec fn spec_seals_node(
    c: ChkV,
    file: Seq<u8>,
    name: Seq<u8>,
    level: nat,
    m: int,
    dbf: BlockFileV,
    ibf: BlockFileV,
) -> bool
    decreases level,
{
    if level == 0 {
        &&& 0 <= m < spec_level_width(file.len(), 0)
        &&& m < dbf.slots.len()
        &&& spec_d_chk_ok(c, file, m, dbf.slots[m])
    } else {
        let idx = spec_sum_of_higher_widths(spec_level_width(file.len(), level)) + m;
        let cipher = ibf.slots[idx];
        let plain = chacha_decrypt_of(c.key, c.iv, cipher);
        let ib = spec_node_block(c, cipher);
        &&& c.wf()
        &&& c.block_type == BlockType::IBlock.code()
        &&& 0 <= m < spec_level_width(file.len(), level)
        &&& c.bf_index == idx
        &&& idx < ibf.slots.len()
        &&& spec_parse_i_block(plain) is Some
        &&& plain == spec_serialize_i_block(ib)
        &&& cipher == chacha_encrypt_of(c.key, c.iv, plain)
        &&& cipher.len() == plain.len()
        &&& c.query == sha3_512_of(cipher)
        &&& ib.wf()
        &&& ib.metadata == (if idx == 0 {
            Some(MetaDataV { file_name: name, file_size: file.len() as u64 })
        } else {
            None::<MetaDataV>
        })
        &&& ib.chks.len() == spec_child_count(file.len(), level, m)
        &&& forall|k: int|
            0 <= k < ib.chks.len() ==> spec_seals_node(
                #[trigger] ib.chks[k],
                file,
                name,
                (level - 1) as nat,
                256 * m + k,
                dbf,
                ibf,
            )
    }
}

/// The root CHK stored in slot zero of the index-CHK file seals the whole
/// tree from root level `rl` down.
pub open spec fn spec_sealed_root_at(
    rl: nat,
    file: Seq<u8>,
    name: Seq<u8>,
    dbf: BlockFileV,
    ibf: BlockFileV,
    ichk: BlockFileV,
) -> bool {
    &&& rl >= 1
    &&& spec_level_width(file.len(), rl) == 1
    &&& ichk.slots.len() >= 1
    &&& spec_parse_chk(ichk.slots[0]) is Some
    &&& spec_seals_node(spec_parse_chk(ichk.slots[0]).unwrap(), file, name, rl, 0, dbf, ibf)
}

/// A complete sealed encoding of `file` under `name` across the block
/// files: the data and index files are wide enough for the whole tree, and
/// the root CHK in slot zero of the index-CHK file seals every level of it,
/// bottoming out in the data-block seals, with the metadata exactly on the
/// root.
pub open spec fn spec_sealed_encoding(
    file: Seq<u8>,
    name: Seq<u8>,
    dbf: BlockFileV,
    ibf: BlockFileV,
    ichk: BlockFileV,
) -> bool {
    &&& 0 < file.len() <= spec_max_file_len()
    &&& file.len() <= usize::MAX
    &&& dbf.slots.len() >= spec_d_block_count(file.len())
    &&& ibf.slots.len() >= spec_total_i_block_count(spec_d_block_count(file.len()))
    &&& exists|rl: nat| #[trigger] spec_sealed_root_at(rl, file, name, dbf, ibf, ichk)
}

/// Rewriting one slot of the index block-file below a sealed node's own
/// level leaves the node sealed: a node depends only on its own slot and on
/// the slots of the levels below it, which all lie at or past its level's
/// base.
pub proof fn lemma_seal_preserved(
    c: ChkV,
    file: Seq<u8>,
    name: Seq<u8>,
    level: nat,
    m: int,
    except: int,
    dbf: BlockFileV,
    ibf1: BlockFileV,
    ibf2: BlockFileV,
)
    requires
        spec_d_block_count(file.len()) >= 1,
        spec_seals_node(c, file, name, level, m, dbf, ibf1),
        ibf2.slots.len() >= ibf1.slots.len(),
        forall|j: int| 0 <= j < ibf1.slots.len() && j != except ==> ibf2.slots[j] == ibf1.slots[j],
        level >= 1 ==> except != spec_sum_of_higher_widths(spec_level_width(file.len(), level))
            + m,
        level >= 2 ==> except < spec_sum_of_higher_widths(
            spec_level_width(file.len(), (level - 1) as nat),
        ),
    ensures
        spec_seals_node(c, file, name, level, m, dbf, ibf2),
    decreases level,
{
    reveal(spec_seals_node);
    if level >= 1 {
        let w0 = spec_depth_zero_width(spec_d_block_count(file.len()));
        lemma_depth_zero_is_ceil(spec_d_block_count(file.len()));
        let idx = spec_sum_of_higher_widths(spec_level_width(file.len(), level)) + m;
        assert(ibf2.slots[idx] == ibf1.slots[idx]);
        let ib = spec_node_block(c, ibf1.slots[idx]);
        assert forall|k: int| 0 <= k < ib.chks.len() implies spec_seals_node(
            #[trigger] ib.chks[k],
            file,
            name,
            (level - 1) as nat,
            256 * m + k,
            dbf,
            ibf2,
        ) by {
            if level >= 3 {
                let lwb = spec_level_width(file.len(), (level - 1) as nat);
                let lwbb = spec_level_width(file.len(), (level - 2) as nat);
                lemma_width_step(w0, (level - 3) as nat);
                assert(lwb >= 1);
                assert(lwbb >= 2 && lwb == next_width(lwbb));
                assert(spec_sum_of_higher_widths(lwbb) == lwb + spec_sum_of_higher_widths(lwb));
            }
            lemma_seal_preserved(
                ib.chks[k],
                file,
                name,
                (level - 1) as nat,
                256 * m + k,
                except,
                dbf,
                ibf1,
                ibf2,
            );
        }
    }
}

/// One link of the width chain between adjacent populated tree levels: the
/// upper level's width is the ceiling division of the lower one's, so 256
/// upper nodes tile the lower level, and the slot bases telescope.
pub proof fn lemma_width_link(len: nat, level: nat)
    requires
        level >= 1,
        spec_d_block_count(len) >= 1,
        spec_level_width(len, level) >= 1,
    ensures
        spec_level_width(len, level) == next_width(spec_level_width(len, (level - 1) as nat)),
        spec_level_width(len, (level - 1) as nat) >= 1,
        level >= 2 ==> spec_level_width(len, (level - 1) as nat) >= 2,
        256 * spec_level_width(len, level) >= spec_level_width(len, (level - 1) as nat),
        spec_sum_of_higher_widths(spec_level_width(len, (level - 1) as nat)) == (if spec_level_width(
            len,
            (level - 1) as nat,
        ) >= 2 {
            spec_level_width(len, level) + spec_sum_of_higher_widths(spec_level_width(len, level))
        } else {
            0nat
        }),
{
    let dd = spec_d_block_count(len);
    let w0 = spec_depth_zero_width(dd);
    lemma_depth_zero_is_ceil(dd);
    let lwb = spec_level_width(len, (level - 1) as nat);
    if level == 1 {
        assert(lwb == dd);
        lemma_next_width_is_ceil(dd);
        lemma_ceil_div_covers(dd, IBLOCK_CHK_CAPACITY as nat);
        assert(spec_level_width(len, 1) == w0);
        assert(w0 == next_width(dd));
    } else {
        lemma_width_step(w0, (level - 2) as nat);
        assert(lwb >= 2);
        lemma_next_width_is_ceil(lwb);
        lemma_ceil_div_covers(lwb, IBLOCK_CHK_CAPACITY as nat);
    }
}

/// Open a sealed leaf: a level-zero node is a data-block CHK for chunk `m`.
pub proof fn lemma_open_leaf(
    c: ChkV,
    file: Seq<u8>,
    name: Seq<u8>,
    m: int,
    dbf: BlockFileV,
    ibf: BlockFileV,
)
    requires
        spec_seals_node(c, file, name, 0, m, dbf, ibf),
    ensures
        0 <= m < spec_d_block_count(file.len()),
        m < dbf.slots.len(),
        spec_d_chk_ok(c, file, m, dbf.slots[m]),
        c.bf_index == m,
        c.block_type == BlockType::DBlock.code(),
{
    reveal(spec_seals_node);
}

/// Open a sealed index node: its slot, the archived block the slot opens
/// to, that block's children and their seals one level down.
pub proof fn lemma_open_node(
    c: ChkV,
    file: Seq<u8>,
    name: Seq<u8>,
    level: nat,
    m: int,
    dbf: BlockFileV,
    ibf: BlockFileV,
)
    requires
        level >= 1,
        spec_d_block_count(file.len()) >= 1,
        spec_seals_node(c, file, name, level, m, dbf, ibf),
    ensures
        ({
            let lwg = spec_level_width(file.len(), level) as int;
            let lwb = spec_level_width(file.len(), (level - 1) as nat) as int;
            let idx = spec_sum_of_higher_widths(spec_level_width(file.len(), level)) + m;
            let ib = spec_node_block(c, ibf.slots[idx]);
            &&& c.wf()
            &&& c.block_type == BlockType::IBlock.code()
            &&& c.bf_index == idx
            &&& 0 <= idx < ibf.slots.len()
            &&& 0 <= m < lwg
            &&& lwg == next_width(lwb as nat) as int
            &&& 256 * m < lwb
            &&& spec_parse_i_block(chacha_decrypt_of(c.key, c.iv, ibf.slots[idx])) == Some(ib)
            &&& ibf.slots[idx] == chacha_encrypt_of(c.key, c.iv, spec_serialize_i_block(ib))
            &&& ibf.slots[idx].len() == spec_serialize_i_block(ib).len()
            &&& ib.wf()
            &&& ib.chks.len() == (if lwb - 256 * m >= 256 {
                256int
            } else {
                lwb - 256 * m
            })
            &&& 256 * m + ib.chks.len() <= lwb
            &&& ib.metadata == (if idx == 0 {
                Some(MetaDataV { file_name: name, file_size: file.len() as u64 })
            } else {
                None::<MetaDataV>
            })
            &&& forall|k: int|
                0 <= k < ib.chks.len() ==> spec_seals_node(
                    #[trigger] ib.chks[k],
                    file,
                    name,
                    (level - 1) as nat,
                    256 * m + k,
                    dbf,
                    ibf,
                )
        }),
{
    reveal(spec_seals_node);
    lemma_width_link(file.len(), level);
    let lwg = spec_level_width(file.len(), level);
    let lwb = spec_level_width(file.len(), (level - 1) as nat);
    lemma_next_width_is_ceil(lwb);
    lemma_group_start(lwb, IBLOCK_CHK_CAPACITY as nat, m as nat);
}

/// Convergent encryption: the data-block key derives from the plaintext
/// alone, so any two encodings of the same content agree on every
/// data-block key.
pub proof fn lemma_convergent_encryption(
    file: Seq<u8>,
    i: int,
    c1: ChkV,
    cipher1: Seq<u8>,
    c2: ChkV,
    cipher2: Seq<u8>,
)
    requires
        spec_d_chk_ok(c1, file, i, cipher1),
        spec_d_chk_ok(c2, file, i, cipher2),
    ensures
        c1.key == c2.key,
{
}

/// Encrypt a data block: serialize, derive the convergent key, encrypt under
/// a fresh IV, and hash the ciphertext. Returns (key, iv, ciphertext, query
/// hash).
pub fn encrypt_d_block(dblock: &DBlock) -> (r: (Vec<u8>, Vec<u8>, Vec<u8>, Vec<u8>))
    requires
        dblock@.wf(),
    ensures
        r.0@ == sha3_256_of(sha3_512_of(spec_serialize_d_block(dblock@))),
        r.0@.len() == 32,
        r.1@.len() == 12,
        r.2@ == chacha_encrypt_of(r.0@, r.1@, spec_serialize_d_block(dblock@)),
        r.2@.len() == spec_serialize_d_block(dblock@).len(),
        r.2@.len() <= MAX_ENCRYPTED_DBLOCK_BUFFER_SIZE,
        r.3@ == sha3_512_of(r.2@),
        r.3@.len() == 64,
{
    proof {
        lemma_d_block_round_trip(dblock@);
    }
    let serialized = dblock.serialize();
    let plain_hash = sha3_512(serialized.as_slice());
    let double_hash = sha3_256(plain_hash.as_slice());
    let (iv, encrypted) = encrypt_chacha20_poly1305(double_hash.as_slice(), serialized.as_slice());
    let query_hash = sha3_512(encrypted.as_slice());
    (double_hash, iv, encrypted, query_hash)
}

/// Encrypt an index block, exactly as a data block. Returns (key, iv,
/// ciphertext, query hash).
pub fn encrypt_i_block(iblock: &IBlock) -> (r: (Vec<u8>, Vec<u8>, Vec<u8>, Vec<u8>))
    requires
        iblock@.wf(),
    ensures
        r.0@ == sha3_256_of(sha3_512_of(spec_serialize_i_block(iblock@))),
        r.0@.len() == 32,
        r.1@.len() == 12,
        r.2@ == chacha_encrypt_of(r.0@, r.1@, spec_serialize_i_block(iblock@)),
        r.2@.len() == spec_serialize_i_block(iblock@).len(),
        r.2@.len() <= MAX_ENCRYPTED_IBLOCK_BUFFER_SIZE,
        chacha_decrypt_of(r.0@, r.1@, r.2@) == spec_serialize_i_block(iblock@),
        r.3@ == sha3_512_of(r.2@),
        r.3@.len() == 64,
{
    let serialized = iblock.serialize();
    let plain_hash = sha3_512(serialized.as_slice());
    let double_hash = sha3_256(plain_hash.as_slice());
    let (iv, encrypted) = encrypt_chacha20_poly1305(double_hash.as_slice(), serialized.as_slice());
    let query_hash = sha3_512(encrypted.as_slice());
    (double_hash, iv, encrypted, query_hash)
}

/// Decrypt and parse a data block. When the ciphertext was produced by
/// encrypting an archived data block under the same key and IV, that block
/// comes back.
pub fn decrypt_d_block(key: &[u8], iv: &[u8], encrypted_buffer: &[u8]) -> (r: Result<
    DBlock,
    CoreError,
>)
    requires
        key@.len() == 32,
        iv@.len() == 12,
        encrypted_buffer@.len() <= 0x7fff_ffff,
    ensures
        match r {
            Ok(b) => spec_parse_d_block(chacha_decrypt_of(key@, iv@, encrypted_buffer@)) == Some(
                b@,
            ),
            Err(e) => spec_parse_d_block(chacha_decrypt_of(key@, iv@, encrypted_buffer@)) is None
                && e == CoreError::Corrupted,
        },
        forall|b: DBlockV|
            b.wf() && encrypted_buffer@ == chacha_encrypt_of(
                key@,
                iv@,
                spec_serialize_d_block(b),
            ) ==> (r matches Ok(rb) && rb@ == b),
{
    let dec_buf = decrypt_chacha20_poly1305(key, iv, encrypted_buffer);
    let r = DBlock::from_bytes(dec_buf.as_slice());
    proof {
        assert forall|b: DBlockV|
            b.wf() && encrypted_buffer@ == chacha_encrypt_of(
                key@,
                iv@,
                spec_serialize_d_block(b),
            ) implies (r matches Ok(rb) && rb@ == b) by {
            lemma_d_block_round_trip(b);
            assert(dec_buf@ == spec_serialize_d_block(b));
        }
    }
    r
}

/// Decrypt and parse an index block, as for a data block.
pub fn decrypt_i_block(key: &[u8], iv: &[u8], encrypted_buffer: &[u8]) -> (r: Result<
    IBlock,
    CoreError,
>)
    requires
        key@.len() == 32,
        iv@.len() == 12,
        encrypted_buffer@.len() <= 0x7fff_ffff,
    ensures
        match r {
            Ok(b) => spec_parse_i_block(chacha_decrypt_of(key@, iv@, encrypted_buffer@)) == Some(
                b@,
            ),
            Err(e) => spec_parse_i_block(chacha_decrypt_of(key@, iv@, encrypted_buffer@)) is None
                && e == CoreError::Corrupted,
        },
        forall|b: IBlockV|
            b.wf() && encrypted_buffer@ == chacha_encrypt_of(
                key@,
                iv@,
                spec_serialize_i_block(b),
            ) ==> (r matches Ok(rb) && rb@ == b),
{
    let dec_buf = decrypt_chacha20_poly1305(key, iv, encrypted_buffer);
    let r = IBlock::from_bytes(dec_buf.as_slice());
    proof {
        assert forall|b: IBlockV|
            b.wf() && encrypted_buffer@ == chacha_encrypt_of(
                key@,
                iv@,
                spec_serialize_i_block(b),
            ) implies (r matches Ok(rb) && rb@ == b) by {
            lemma_i_block_round_trip(b);
            assert(dec_buf@ == spec_serialize_i_block(b));
        }
    }
    r
}

/// What one encode of `file` under `name` establishes, stated over the
/// block files' views and the returned root CHK: slot widths and counts,
/// every data-block CHK slot parsing to its convergent sealing CHK, the
/// root CHK at slot zero of the index-CHK file, and the whole index tree
/// sealed level by level down to the data blocks.
pub open spec fn spec_encode_ok(
    file: Seq<u8>,
    name: Seq<u8>,
    root: ChkV,
    dbf: BlockFileV,
    dchk: BlockFileV,
    ibf: BlockFileV,
    ichk: BlockFileV,
) -> bool {
    let dd = spec_d_block_count(file.len());
    let tt = spec_total_i_block_count(dd);
    &&& dbf.wf()
    &&& dbf.max_span_size == MAX_ENCRYPTED_DBLOCK_BUFFER_SIZE
    &&& dbf.slots.len() == dd
    &&& dchk.wf()
    &&& dchk.max_span_size == 140
    &&& dchk.slots.len() == dd
    &&& ibf.wf()
    &&& ibf.max_span_size == MAX_ENCRYPTED_IBLOCK_BUFFER_SIZE
    &&& ibf.slots.len() == tt
    &&& ichk.wf()
    &&& ichk.max_span_size == 140
    &&& ichk.slots.len() >= 1
    &&& forall|k: int|
        0 <= k < dd ==> (#[trigger] spec_parse_chk(dchk.slots[k])) is Some && spec_d_chk_ok(
            spec_parse_chk(dchk.slots[k]).unwrap(),
            file,
            k,
            dbf.slots[k],
        )
    &&& root.wf()
    &&& root.block_type == BlockType::IBlock.code()
    &&& root.bf_index == 0
    &&& ichk.slots[0] == spec_serialize_chk(root)
    &&& spec_sealed_encoding(file, name, dbf, ibf, ichk)
}

/// The four block files an encode produces: ciphertext data blocks, their
/// CHKs, ciphertext index blocks, and their CHKs (the root's at slot zero).
pub struct EncodedBlocks {
    pub d_block_bf: BlockFile,
    pub d_block_chk_bf: BlockFile,
    pub i_block_bf: BlockFile,
    pub i_block_chk_bf: BlockFile,
}

/// Largest file the CHK schema can index: every data block's index must fit
/// the 32-bit block-file index.
pub open spec fn spec_max_file_len() -> int {
    0xffff_ffff * DBLOCK_SIZE_IN_BYTES
}

/// Split the file into chunks, encrypt each under its convergent key, and
/// write ciphertexts and CHKs to fresh block files.
#[verifier::loop_isolation(false)]
fn make_d_blocks(content: &[u8]) -> (r: (BlockFile, BlockFile, Ghost<Seq<ChkV>>))
    requires
        content@.len() > 0,
        content@.len() <= spec_max_file_len(),
    ensures
        ({
            let file = content@;
            let dd = spec_d_block_count(file.len());
            let dchks = r.2@;
            &&& r.0@.wf()
            &&& r.0.inv()
            &&& r.0@.max_span_size == MAX_ENCRYPTED_DBLOCK_BUFFER_SIZE
            &&& r.0@.slots.len() == dd
            &&& r.1@.wf()
            &&& r.1.inv()
            &&& r.1@.max_span_size == 140
            &&& r.1@.slots.len() == dd
            &&& dchks.len() == dd
            &&& forall|k: int|
                0 <= k < dd ==> r.1@.slots[k] == spec_serialize_chk(#[trigger] dchks[k])
                    && spec_d_chk_ok(dchks[k], file, k, r.0@.slots[k])
        }),
{
    let ghost file = content@;
    let file_length = content.len() as u64;
    let d_block_count = calculate_d_block_count(file_length);
    proof {
        lemma_ceil_div_le(file.len() as nat, DBLOCK_SIZE_IN_BYTES as nat, 0xffff_ffff);
    }
    let mut d_block_bf = BlockFile::new(MAX_ENCRYPTED_DBLOCK_BUFFER_SIZE as u32);
    let mut d_block_chk_bf = BlockFile::new(140);
    let ghost mut dchks: Seq<ChkV> = Seq::empty();
    let mut i: usize = 0;
    while (i as u64) < d_block_count
        invariant
            i as u64 <= d_block_count,
            d_block_bf@.wf(),
            d_block_bf.inv(),
            d_block_bf@.max_span_size == MAX_ENCRYPTED_DBLOCK_BUFFER_SIZE,
            d_block_bf@.slots.len() == i,
            d_block_chk_bf@.wf(),
            d_block_chk_bf.inv(),
            d_block_chk_bf@.max_span_size == 140,
            d_block_chk_bf@.slots.len() == i,
            dchks.len() == i,
            forall|k: int|
                0 <= k < i ==> d_block_chk_bf@.slots[k] == spec_serialize_chk(#[trigger] dchks[k])
                    && spec_d_chk_ok(dchks[k], file, k, d_block_bf@.slots[k]),
        decreases d_block_count - i,
    {
        proof {
            lemma_group_start(file.len() as nat, DBLOCK_SIZE_IN_BYTES as nat, i as nat);
            assert(i * (DBLOCK_SIZE_IN_BYTES as int) == (DBLOCK_SIZE_IN_BYTES as nat) * (
            i as nat)) by (nonlinear_arith);
            assert(i * (DBLOCK_SIZE_IN_BYTES as int) < file.len());
        }
        let start = i * (DBLOCK_SIZE_IN_BYTES as usize);
        let end = if content.len() - start <= (DBLOCK_SIZE_IN_BYTES as usize) {
            content.len()
        } else {
            start + (DBLOCK_SIZE_IN_BYTES as usize)
        };
        let chunk = copy_range(content, start, end);
        proof {
            assert(chunk@ =~= spec_chunk(file, i as int));
        }
        let d_block = DBlock::new(chunk.as_slice());
        let (key, iv, enc, qh) = encrypt_d_block(&d_block);
        let chk = CHK::new(
            key.as_slice(),
            iv.as_slice(),
            qh.as_slice(),
            BlockType::DBlock,
            i as u32,
        );
        let ghost prev_slots = d_block_bf@.slots;
        d_block_bf.write_nth_block(i, enc.as_slice());
        proof {
            assert(d_block_bf@.slots =~= prev_slots.push(enc@));
        }
        let chk_ser = chk.serialize();
        let ghost prev_chk_slots = d_block_chk_bf@.slots;
        d_block_chk_bf.write_nth_block(i, chk_ser.as_slice());
        proof {
            assert(d_block_chk_bf@.slots =~= prev_chk_slots.push(chk_ser@));
            assert(d_block@ =~~= (DBlockV {
                header: BlockHeader { block_type: BlockType::DBlock.code() },
                data: spec_chunk(file, i as int),
            }));
            dchks = dchks.push(chk@);
        }
        i = i + 1;
    }
    (d_block_bf, d_block_chk_bf, Ghost(dchks))
}

/// Encode a file into the four block files and return the root index
/// block's CHK. Data blocks are written first; index blocks are laid out
/// root-first, each tree depth placed bottom-up, and the root's CHK is
/// stored in slot zero of the index-CHK file.
#[verifier::loop_isolation(false)]
#[verifier::rlimit(100)]
pub fn encode_file_to_blocks(file_name: &[u8], content: &[u8]) -> (r: (CHK, EncodedBlocks))
    requires
        content@.len() > 0,
        content@.len() <= spec_max_file_len(),
        file_name@.len() <= MAX_FILE_NAME_BYTES,
    ensures
        ({
            let file = content@;
            let dd = spec_d_block_count(file.len());
            let tt = spec_total_i_block_count(dd);
            &&& r.1.d_block_bf.inv()
            &&& r.1.d_block_chk_bf.inv()
            &&& r.1.i_block_bf.inv()
            &&& r.1.i_block_chk_bf.inv()
            &&& spec_encode_ok(
                file,
                file_name@,
                r.0@,
                r.1.d_block_bf@,
                r.1.d_block_chk_bf@,
                r.1.i_block_bf@,
                r.1.i_block_chk_bf@,
            )
        }),
{
    let ghost file = content@;
    let file_length = content.len() as u64;
    let d_block_count = calculate_d_block_count(file_length);
    let total_i = calculate_total_i_block_count(d_block_count);
    let w0 = calculate_depth_zero_i_block_count(d_block_count);
    let is_only_one_i_block = total_i == 1;
    proof {
        lemma_depth_zero_is_ceil(d_block_count as nat);
        lemma_ceil_div_le(file.len() as nat, DBLOCK_SIZE_IN_BYTES as nat, 0xffff_ffff);
        lemma_ceil_div_le(d_block_count as nat, IBLOCK_CHK_CAPACITY as nat, 0x100_0000);
        assert(d_block_count as int <= 256 * 0x100_0000) by (nonlinear_arith)
            requires
                d_block_count <= 0xffff_ffff,
        ;
        lemma_sum_of_higher_widths_le(w0 as nat);
    }
    let metadata = MetaData {
        file_name: vstd::slice::slice_to_vec(file_name),
        file_size: file_length,
    };
    let dres = make_d_blocks(content);
    let d_block_bf = dres.0;
    let d_block_chk_bf = dres.1;
    let ghost dchks = dres.2@;

    let base0 = total_i - w0;
    proof {
        if is_only_one_i_block && w0 >= 2 {
            assert(spec_sum_of_higher_widths(w0 as nat) >= next_width(w0 as nat));
            lemma_next_width_is_ceil(w0 as nat);
            assert(false);
        }
    }
    proof {
        lemma_ceil_div_covers(file.len() as nat, DBLOCK_SIZE_IN_BYTES as nat);
        assert(d_block_count >= 1);
    }
    let mut i_block_bf = BlockFile::new(MAX_ENCRYPTED_IBLOCK_BUFFER_SIZE as u32);
    let mut i_block_chk_bf = BlockFile::new(140);
    let mut i_block_chks: VecDeque<CHK> = VecDeque::new();
    let ghost mut lchks: Seq<ChkV> = Seq::empty();
    let mut produced: u64 = 0;
    let mut consumed: u64 = 0;
    while consumed < d_block_count
        invariant
            consumed <= d_block_count,
            produced <= w0,
            consumed == 256 * produced || (consumed == d_block_count && produced == w0),
            consumed < d_block_count ==> consumed == 256 * produced && produced < w0,
            i_block_bf@.wf(),
            i_block_bf.inv(),
            i_block_bf@.max_span_size == MAX_ENCRYPTED_IBLOCK_BUFFER_SIZE,
            i_block_bf@.slots.len() == (if produced == 0 {
                0int
            } else {
                base0 + produced
            }),
            i_block_chks@.len() == produced,
            lchks.len() == produced,
            forall|k: int| 0 <= k < produced ==> (#[trigger] i_block_chks@[k])@ == lchks[k],
            forall|k: int|
                0 <= k < produced ==> (#[trigger] lchks[k]).wf() && lchks[k].block_type
                    == BlockType::IBlock.code() && lchks[k].bf_index == base0 + k,
            is_only_one_i_block ==> w0 == 1,
            forall|k: int|
                0 <= k < produced ==> spec_seals_node(
                    #[trigger] lchks[k],
                    file,
                    file_name@,
                    1,
                    k,
                    d_block_bf@,
                    i_block_bf@,
                ),
        decreases d_block_count - consumed,
    {
        let remaining = d_block_count - consumed;
        let cnt = if remaining < IBLOCK_CHK_CAPACITY {
            remaining
        } else {
            IBLOCK_CHK_CAPACITY
        };
        let mut group: Vec<CHK> = Vec::new();
        let mut j: u64 = 0;
        while j < cnt
            invariant
                j <= cnt,
                cnt >= 1,
                consumed + cnt <= d_block_count,
                group@.len() == j,
                forall|k: int|
                    0 <= k < j ==> (#[trigger] group@[k])@ == dchks[consumed + k],
            decreases cnt - j,
        {
            let idx = (consumed + j) as usize;
            let buf = d_block_chk_bf.read_nth_block(idx).unwrap();
            proof {
                lemma_chk_round_trip(dchks[idx as int]);
            }
            let chk = CHK::from_bytes(buf.as_slice()).unwrap();
            group.push(chk);
            j = j + 1;
        }
        let i_block = if is_only_one_i_block {
            IBlock::new_root(group.as_slice(), &metadata)
        } else {
            IBlock::new(group.as_slice())
        };
        proof {
            assert forall|k: int| 0 <= k < i_block@.chks.len() implies (#[trigger] i_block
                @.chks[k]).wf() && i_block@.chks[k].block_type <= 1 by {
                assert(i_block@.chks[k] == group@[k]@);
                assert(group@[k]@ == dchks[consumed + k]);
            }
            assert(i_block@.wf());
        }
        let (key, iv, enc, qh) = encrypt_i_block(&i_block);
        let bf_index = base0 + produced;
        let ghost prev_ibf = i_block_bf@;
        i_block_bf.write_nth_block(bf_index as usize, enc.as_slice());
        let chk = CHK::new(
            key.as_slice(),
            iv.as_slice(),
            qh.as_slice(),
            BlockType::IBlock,
            bf_index as u32,
        );
        i_block_chks.push_back(chk);
        proof {
            reveal(spec_seals_node);
            let ghost prevchks = lchks;
            lchks = lchks.push(chk@);
            if consumed + cnt == d_block_count {
                lemma_group_count(d_block_count as nat, 256, produced as nat);
            }
            lemma_next_width_is_ceil(w0 as nat);
            assert(spec_level_width(file.len(), 1) == w0 as nat);
            assert(spec_sum_of_higher_widths(w0 as nat) == base0);
            assert forall|k: int| 0 <= k < produced implies spec_seals_node(
                #[trigger] lchks[k],
                file,
                file_name@,
                1,
                k,
                d_block_bf@,
                i_block_bf@,
            ) by {
                assert(lchks[k] == prevchks[k]);
                lemma_seal_preserved(
                    prevchks[k],
                    file,
                    file_name@,
                    1,
                    k,
                    -1,
                    d_block_bf@,
                    prev_ibf,
                    i_block_bf@,
                );
            }
            assert(i_block_bf@.slots[bf_index as int] == enc@);
            lemma_i_block_round_trip(i_block@);
            assert forall|k: int| 0 <= k < i_block@.chks.len() implies spec_seals_node(
                #[trigger] i_block@.chks[k],
                file,
                file_name@,
                0nat,
                256 * (produced as int) + k,
                d_block_bf@,
                i_block_bf@,
            ) by {
                assert(i_block@.chks[k] == group@[k]@);
                assert(group@[k]@ == dchks[consumed + k]);
            }
            assert(spec_seals_node(
                chk@,
                file,
                file_name@,
                1,
                produced as int,
                d_block_bf@,
                i_block_bf@,
            ));
        }
        consumed = consumed + cnt;
        produced = produced + 1;
    }
    proof {
        assert(produced == w0);
        assert(w0 >= 1);
        assert(i_block_bf@.slots.len() == total_i);
    }
    if is_only_one_i_block {
        proof {
            assert(w0 == 1);
        }
        let chk = i_block_chks.pop_front().unwrap();
        let ser = chk.serialize();
        i_block_chk_bf.write_nth_block(0, ser.as_slice());
        proof {
            assert(i_block_chk_bf@.slots =~= Seq::<Seq<u8>>::empty().push(ser@));
            assert forall|k: int|
                0 <= k < spec_d_block_count(file.len()) implies (#[trigger] spec_parse_chk(
                d_block_chk_bf@.slots[k],
            )) is Some && spec_d_chk_ok(
                spec_parse_chk(d_block_chk_bf@.slots[k]).unwrap(),
                file,
                k,
                d_block_bf@.slots[k],
            ) by {
                lemma_chk_round_trip(dchks[k]);
            }
        }
        proof {
            lemma_chk_round_trip(chk@);
            assert(chk@ == lchks[0]);
            assert(spec_sealed_root_at(
                1,
                file,
                file_name@,
                d_block_bf@,
                i_block_bf@,
                i_block_chk_bf@,
            ));
            assert(spec_sealed_encoding(
                file,
                file_name@,
                d_block_bf@,
                i_block_bf@,
                i_block_chk_bf@,
            ));
        }
        return (
            chk,
            EncodedBlocks { d_block_bf, d_block_chk_bf, i_block_bf, i_block_chk_bf },
        );
    }
    let mut upper: u64 = base0;
    let ghost mut glevel: nat = 1;
    while i_block_chks.len() > 1
        invariant
            i_block_chks@.len() == lchks.len(),
            1 <= lchks.len() <= 0x100_0000,
            upper == spec_sum_of_higher_widths(lchks.len() as nat),
            upper <= base0,
            glevel >= 1,
            spec_level_width(file.len(), glevel) == lchks.len(),
            forall|k: int|
                0 <= k < lchks.len() ==> spec_seals_node(
                    #[trigger] lchks[k],
                    file,
                    file_name@,
                    glevel,
                    k,
                    d_block_bf@,
                    i_block_bf@,
                ),
            forall|k: int| 0 <= k < lchks.len() ==> (#[trigger] i_block_chks@[k])@ == lchks[k],
            forall|k: int|
                0 <= k < lchks.len() ==> (#[trigger] lchks[k]).wf() && lchks[k].block_type
                    == BlockType::IBlock.code(),
            i_block_bf@.wf(),
            i_block_bf.inv(),
            i_block_bf@.max_span_size == MAX_ENCRYPTED_IBLOCK_BUFFER_SIZE,
            i_block_bf@.slots.len() == total_i,
            i_block_chk_bf@.wf(),
            i_block_chk_bf.inv(),
            i_block_chk_bf@.max_span_size == 140,
            upper == 0 ==> lchks.len() == 1 && lchks[0].bf_index == 0
                && i_block_chk_bf@.slots.len() >= 1 && i_block_chk_bf@.slots[0]
                == spec_serialize_chk(lchks[0]),
        decreases lchks.len(),
    {
        let avail = i_block_chks.len() as u64;
        proof {
            lemma_next_width_is_ceil(avail as nat);
            lemma_next_width_shrinks(avail as nat);
            assert(spec_sum_of_higher_widths(avail as nat) == next_width(avail as nat)
                + spec_sum_of_higher_widths(next_width(avail as nat)));
            lemma_depth_zero_is_ceil(d_block_count as nat);
            lemma_width_step(w0 as nat, (glevel - 1) as nat);
            assert(spec_level_width(file.len(), (glevel + 1) as nat) == next_width(avail as nat));
        }
        let count = (avail + 255) / 256;
        let base = upper - count;
        proof {
            assert(count == next_width(avail as nat));
            assert(base == spec_sum_of_higher_widths(count as nat));
        }
        let ghost depth_in = lchks;
        let ghost mut newchks: Seq<ChkV> = Seq::empty();
        let mut made: u64 = 0;
        let mut consumed2: u64 = 0;
        while made < count
            invariant
                made <= count,
                consumed2 <= avail,
                consumed2 == 256 * made || (consumed2 == avail && made == count),
                consumed2 < avail ==> consumed2 == 256 * made && made < count,
                made < count ==> consumed2 < avail,
                i_block_chks@.len() == (avail - consumed2) + made,
                newchks.len() == made,
                spec_level_width(file.len(), glevel) == avail as nat,
                spec_level_width(file.len(), (glevel + 1) as nat) == count as nat,
                base == spec_sum_of_higher_widths(count as nat),
                forall|k: int|
                    0 <= k < avail ==> spec_seals_node(
                        #[trigger] depth_in[k],
                        file,
                        file_name@,
                        glevel,
                        k,
                        d_block_bf@,
                        i_block_bf@,
                    ),
                forall|k: int|
                    0 <= k < made ==> spec_seals_node(
                        #[trigger] newchks[k],
                        file,
                        file_name@,
                        (glevel + 1) as nat,
                        k,
                        d_block_bf@,
                        i_block_bf@,
                    ),
                forall|k: int|
                    0 <= k < avail - consumed2 ==> (#[trigger] i_block_chks@[k])@ == depth_in[
                        consumed2 + k],
                forall|k: int|
                    0 <= k < made ==> (#[trigger] i_block_chks@[avail - consumed2 + k])@
                        == newchks[k],
                forall|k: int|
                    0 <= k < made ==> (#[trigger] newchks[k]).wf() && newchks[k].block_type
                        == BlockType::IBlock.code() && newchks[k].bf_index == base + k,
                i_block_bf@.wf(),
                i_block_bf.inv(),
                i_block_bf@.max_span_size == MAX_ENCRYPTED_IBLOCK_BUFFER_SIZE,
                i_block_bf@.slots.len() == total_i,
                i_block_chk_bf@.wf(),
                i_block_chk_bf.inv(),
                i_block_chk_bf@.max_span_size == 140,
                (base == 0 && made >= 1) ==> i_block_chk_bf@.slots.len() >= 1
                    && i_block_chk_bf@.slots[0] == spec_serialize_chk(newchks[0]),
            decreases count - made,
        {
            proof {
                if made < count {
                    lemma_group_start(avail as nat, 256, made as nat);
                }
            }
            let remaining2 = avail - consumed2;
            let cnt2 = if remaining2 < IBLOCK_CHK_CAPACITY {
                remaining2
            } else {
                IBLOCK_CHK_CAPACITY
            };
            let mut group: Vec<CHK> = Vec::new();
            let mut j: u64 = 0;
            while j < cnt2
                invariant
                    j <= cnt2,
                    cnt2 >= 1,
                    consumed2 + cnt2 <= avail,
                    group@.len() == j,
                    i_block_chks@.len() == (avail - consumed2 - j) + made,
                    forall|k: int|
                        0 <= k < avail - consumed2 - j ==> (#[trigger] i_block_chks@[k])@
                            == depth_in[consumed2 + j + k],
                    forall|k: int|
                        0 <= k < made ==> (#[trigger] i_block_chks@[avail - consumed2 - j + k])@
                            == newchks[k],
                    forall|k: int|
                        0 <= k < j ==> (#[trigger] group@[k])@ == depth_in[consumed2 + k],
                decreases cnt2 - j,
            {
                let ghost prevq = i_block_chks@;
                let chk = i_block_chks.pop_front().unwrap();
                group.push(chk);
                proof {
                    assert forall|k: int|
                        0 <= k < made implies (#[trigger] i_block_chks@[avail - consumed2 - (j + 1)
                        + k])@ == newchks[k] by {
                        assert(i_block_chks@[avail - consumed2 - (j + 1) + k] == prevq[avail
                            - consumed2 - j + k]);
                    }
                    assert forall|k: int|
                        0 <= k < avail - consumed2 - (j + 1) implies (#[trigger] i_block_chks@[k])@
                        == depth_in[consumed2 + (j + 1) + k] by {
                        assert(i_block_chks@[k] == prevq[k + 1]);
                        assert(prevq[k + 1]@ == depth_in[consumed2 + j + (k + 1)]);
                    }
                }
                j = j + 1;
            }
            let bf_index = base + made;
            let i_block = if bf_index == 0 {
                IBlock::new_root(group.as_slice(), &metadata)
            } else {
                IBlock::new(group.as_slice())
            };
            proof {
                assert forall|k: int| 0 <= k < i_block@.chks.len() implies (#[trigger] i_block
                    @.chks[k]).wf() && i_block@.chks[k].block_type <= 1 by {
                    assert(i_block@.chks[k] == group@[k]@);
                    assert(group@[k]@ == depth_in[consumed2 + k]);
                }
                assert(i_block@.wf());
            }
            let (key, iv, enc, qh) = encrypt_i_block(&i_block);
            let ghost prev_ibf = i_block_bf@;
            i_block_bf.write_nth_block(bf_index as usize, enc.as_slice());
            let chk = CHK::new(
                key.as_slice(),
                iv.as_slice(),
                qh.as_slice(),
                BlockType::IBlock,
                bf_index as u32,
            );
            let ser = chk.serialize();
            i_block_chk_bf.write_nth_block(bf_index as usize, ser.as_slice());
            i_block_chks.push_back(chk);
            proof {
                reveal(spec_seals_node);
                let ghost prevnew = newchks;
                newchks = newchks.push(chk@);
                if consumed2 + cnt2 == avail {
                    lemma_group_count(avail as nat, 256, made as nat);
                }
                assert forall|k: int|
                    0 <= k < made + 1 implies (#[trigger] i_block_chks@[avail - (consumed2 + cnt2)
                    + k])@ == newchks[k] by {
                    if k < made {
                        assert((i_block_chks@[avail - consumed2 - cnt2 + k])@ == newchks[k]);
                    } else {
                        assert(i_block_chks@[i_block_chks@.len() - 1] == chk);
                    }
                }
                if glevel >= 2 {
                    lemma_width_step(w0 as nat, (glevel - 2) as nat);
                    assert(spec_level_width(file.len(), (glevel - 1) as nat) >= 2);
                    assert(spec_sum_of_higher_widths(
                        spec_level_width(file.len(), (glevel - 1) as nat),
                    ) == avail + spec_sum_of_higher_widths(avail as nat));
                }
                assert forall|k: int| 0 <= k < avail implies spec_seals_node(
                    #[trigger] depth_in[k],
                    file,
                    file_name@,
                    glevel,
                    k,
                    d_block_bf@,
                    i_block_bf@,
                ) by {
                    lemma_seal_preserved(
                        depth_in[k],
                        file,
                        file_name@,
                        glevel,
                        k,
                        bf_index as int,
                        d_block_bf@,
                        prev_ibf,
                        i_block_bf@,
                    );
                }
                assert forall|k: int| 0 <= k < made implies spec_seals_node(
                    #[trigger] newchks[k],
                    file,
                    file_name@,
                    (glevel + 1) as nat,
                    k,
                    d_block_bf@,
                    i_block_bf@,
                ) by {
                    assert(newchks[k] == prevnew[k]);
                    lemma_seal_preserved(
                        prevnew[k],
                        file,
                        file_name@,
                        (glevel + 1) as nat,
                        k,
                        bf_index as int,
                        d_block_bf@,
                        prev_ibf,
                        i_block_bf@,
                    );
                }
                assert(i_block_bf@.slots[bf_index as int] == enc@);
                lemma_i_block_round_trip(i_block@);
                assert forall|k: int| 0 <= k < i_block@.chks.len() implies spec_seals_node(
                    #[trigger] i_block@.chks[k],
                    file,
                    file_name@,
                    glevel,
                    256 * (made as int) + k,
                    d_block_bf@,
                    i_block_bf@,
                ) by {
                    assert(i_block@.chks[k] == group@[k]@);
                    assert(group@[k]@ == depth_in[consumed2 + k]);
                }
                assert(spec_seals_node(
                    chk@,
                    file,
                    file_name@,
                    (glevel + 1) as nat,
                    made as int,
                    d_block_bf@,
                    i_block_bf@,
                ));
            }
            consumed2 = consumed2 + cnt2;
            made = made + 1;
        }
        proof {
            assert forall|k: int| 0 <= k < newchks.len() implies (#[trigger] i_block_chks@[k])@
                == newchks[k] by {
                assert((i_block_chks@[avail - consumed2 + k])@ == newchks[k]);
            }
            lchks = newchks;
            glevel = glevel + 1;
            if base == 0 {
                assert(spec_sum_of_higher_widths(count as nat) == 0);
                assert(count == 1);
            }
        }
        upper = base;
    }
    proof {
        assert(lchks.len() == 1);
        assert(upper == 0);
        assert forall|k: int|
            0 <= k < spec_d_block_count(file.len()) implies (#[trigger] spec_parse_chk(
            d_block_chk_bf@.slots[k],
        )) is Some && spec_d_chk_ok(
            spec_parse_chk(d_block_chk_bf@.slots[k]).unwrap(),
            file,
            k,
            d_block_bf@.slots[k],
        ) by {
            lemma_chk_round_trip(dchks[k]);
        }
        lemma_chk_round_trip(lchks[0]);
        assert(spec_sealed_root_at(
            glevel,
            file,
            file_name@,
            d_block_bf@,
            i_block_bf@,
            i_block_chk_bf@,
        ));
        assert(spec_sealed_encoding(
            file,
            file_name@,
            d_block_bf@,
            i_block_bf@,
            i_block_chk_bf@,
        ));
    }
    let root = i_block_chks.pop_front().unwrap();
    (root, EncodedBlocks { d_block_bf, d_block_chk_bf, i_block_bf, i_block_chk_bf })
}

/// Reassemble a file from its block files: decrypt the root index block
/// from the root CHK in slot zero of the index-CHK file, walk the tree
/// breadth-first, and write each data block's bytes at its chunk offset.
/// Returns the root's metadata and the file bytes; on blocks that do not
/// decode, the corruption is reported and nothing partial is returned.
/// For every sealed encoding of a file, the result is that file, bit for
/// bit, under its recorded name.
#[verifier::loop_isolation(false)]
#[verifier::rlimit(100)]
pub fn decode_blocks_to_file(
    d_block_bf: &BlockFile,
    i_block_bf: &BlockFile,
    i_block_chk_bf: &BlockFile,
) -> (r: Result<(MetaData, Vec<u8>), CoreError>)
    requires
        d_block_bf.inv(),
        i_block_bf.inv(),
    ensures
        r matches Ok(p) ==> p.1@.len() == p.0.file_size,
        r matches Err(e) ==> e == CoreError::Corrupted,
        forall|gfile: Seq<u8>, gname: Seq<u8>|
            #[trigger] spec_sealed_encoding(
                gfile,
                gname,
                d_block_bf@,
                i_block_bf@,
                i_block_chk_bf@,
            ) ==> (r matches Ok(p) && p.1@ == gfile && p.0@.file_name == gname && p.0.file_size
                == gfile.len()),
{
    let ghost dv = d_block_bf@;
    let ghost ibv = i_block_bf@;
    let ghost cv = i_block_chk_bf@;
    let root_bytes = match i_block_chk_bf.read_nth_block(0) {
        Ok(b) => b,
        Err(_) => {
            proof {
                assert forall|gfile: Seq<u8>, gname: Seq<u8>|
                    !(#[trigger] spec_sealed_encoding(gfile, gname, dv, ibv, cv)) by {
                    if spec_sealed_encoding(gfile, gname, dv, ibv, cv) {
                        let rl = choose|rl: nat|
                            #[trigger] spec_sealed_root_at(rl, gfile, gname, dv, ibv, cv);
                    }
                }
            }
            return Err(CoreError::Corrupted);
        },
    };
    let root_chk = match CHK::from_bytes(root_bytes.as_slice()) {
        Ok(c) => c,
        Err(e) => {
            proof {
                assert forall|gfile: Seq<u8>, gname: Seq<u8>|
                    !(#[trigger] spec_sealed_encoding(gfile, gname, dv, ibv, cv)) by {
                    if spec_sealed_encoding(gfile, gname, dv, ibv, cv) {
                        let rl = choose|rl: nat|
                            #[trigger] spec_sealed_root_at(rl, gfile, gname, dv, ibv, cv);
                    }
                }
            }
            return Err(e);
        },
    };
    let root_cipher = match i_block_bf.read_nth_block(0) {
        Ok(b) => b,
        Err(_) => {
            proof {
                assert forall|gfile: Seq<u8>, gname: Seq<u8>|
                    !(#[trigger] spec_sealed_encoding(gfile, gname, dv, ibv, cv)) by {
                    if spec_sealed_encoding(gfile, gname, dv, ibv, cv) {
                        let rl = choose|rl: nat|
                            #[trigger] spec_sealed_root_at(rl, gfile, gname, dv, ibv, cv);
                        lemma_ceil_div_covers(gfile.len() as nat, DBLOCK_SIZE_IN_BYTES as nat);
                        lemma_open_node(root_chk@, gfile, gname, rl, 0, dv, ibv);
                    }
                }
            }
            return Err(CoreError::Corrupted);
        },
    };
    if root_cipher.len() > 0x7fff_ffff {
        proof {
            assert forall|gfile: Seq<u8>, gname: Seq<u8>|
                !(#[trigger] spec_sealed_encoding(gfile, gname, dv, ibv, cv)) by {
                if spec_sealed_encoding(gfile, gname, dv, ibv, cv) {
                    let rl = choose|rl: nat|
                        #[trigger] spec_sealed_root_at(rl, gfile, gname, dv, ibv, cv);
                    lemma_ceil_div_covers(gfile.len() as nat, DBLOCK_SIZE_IN_BYTES as nat);
                    lemma_open_node(root_chk@, gfile, gname, rl, 0, dv, ibv);
                    crate::i_block::lemma_serialize_i_block_len(
                        spec_node_block(root_chk@, ibv.slots[0]),
                    );
                }
            }
        }
        return Err(CoreError::Corrupted);
    }
    let root_i_block = match decrypt_i_block(
        root_chk.key.as_slice(),
        root_chk.iv.as_slice(),
        root_cipher.as_slice(),
    ) {
        Ok(b) => b,
        Err(e) => {
            proof {
                assert forall|gfile: Seq<u8>, gname: Seq<u8>|
                    !(#[trigger] spec_sealed_encoding(gfile, gname, dv, ibv, cv)) by {
                    if spec_sealed_encoding(gfile, gname, dv, ibv, cv) {
                        let rl = choose|rl: nat|
                            #[trigger] spec_sealed_root_at(rl, gfile, gname, dv, ibv, cv);
                        lemma_ceil_div_covers(gfile.len() as nat, DBLOCK_SIZE_IN_BYTES as nat);
                        lemma_open_node(root_chk@, gfile, gname, rl, 0, dv, ibv);
                    }
                }
            }
            return Err(e);
        },
    };
    proof {
        assert forall|gfile: Seq<u8>, gname: Seq<u8>|
            #[trigger] spec_sealed_encoding(gfile, gname, dv, ibv, cv) implies ({
            let hg = spec_chain_height(spec_depth_zero_width(spec_d_block_count(gfile.len())));
            &&& root_i_block@.metadata == Some(
                MetaDataV { file_name: gname, file_size: gfile.len() as u64 },
            )
            &&& root_i_block@.chks.len() == spec_level_width(gfile.len(), hg)
            &&& spec_level_width(gfile.len(), hg) >= 1
            &&& hg >= 1 ==> spec_level_width(gfile.len(), hg) >= 2
            &&& spec_sum_of_higher_widths(spec_level_width(gfile.len(), (hg + 1) as nat)) == 0
            &&& forall|k: int|
                0 <= k < root_i_block@.chks.len() ==> spec_seals_node(
                    #[trigger] root_i_block@.chks[k],
                    gfile,
                    gname,
                    hg,
                    k,
                    dv,
                    ibv,
                )
        }) by {
            let rl = choose|rl: nat|
                #[trigger] spec_sealed_root_at(rl, gfile, gname, dv, ibv, cv);
            let dd = spec_d_block_count(gfile.len());
            lemma_ceil_div_covers(gfile.len() as nat, DBLOCK_SIZE_IN_BYTES as nat);
            assert(dd >= 1);
            let w0 = spec_depth_zero_width(dd);
            lemma_depth_zero_is_ceil(dd);
            lemma_root_level_unique(w0, (rl - 1) as nat);
            lemma_chain_height_width(w0);
            let hg = spec_chain_height(w0);
            assert(rl == hg + 1);
            lemma_open_node(root_chk@, gfile, gname, rl, 0, dv, ibv);
            let ib = spec_node_block(root_chk@, ibv.slots[0]);
            assert(root_i_block@ == ib);
            if hg >= 1 {
                assert(spec_width_at(w0, (hg - 1) as nat) >= 2);
            }
        }
    }
    let meta = match root_i_block.metadata {
        Some(m) => m,
        None => {
            return Err(CoreError::Corrupted);
        },
    };
    if meta.file_size > usize::MAX as u64 {
        return Err(CoreError::Corrupted);
    }
    let file_size = meta.file_size as usize;
    let ghost fsz: nat = file_size as nat;
    let ghost mut gl: nat = spec_chain_height(
        spec_depth_zero_width(spec_d_block_count(fsz)),
    );
    let ghost mut a: nat = 0;
    let mut output: Vec<u8> = vec![0u8; file_size];
    let mut queue: VecDeque<CHK> = VecDeque::new();
    proof {
        lemma_parse_i_block_chks_wf(
            chacha_decrypt_of(root_chk.key@, root_chk.iv@, root_cipher@),
        );
    }
    let mut qi: usize = 0;
    while qi < root_i_block.chks.len()
        invariant
            qi <= root_i_block.chks@.len(),
            queue@.len() == qi,
            forall|k: int| 0 <= k < queue@.len() ==> (#[trigger] queue@[k])@.wf(),
            forall|k: int|
                0 <= k < queue@.len() ==> (#[trigger] queue@[k])@ == root_i_block@.chks[k],
        decreases root_i_block.chks@.len() - qi,
    {
        proof {
            assert(root_i_block.chks@[qi as int]@ == root_i_block@.chks[qi as int]);
        }
        queue.push_back(root_i_block.chks[qi].clone());
        qi = qi + 1;
    }
    let mut fuel: u64 = d_block_bf.n() as u64 + i_block_bf.n() as u64 + 4;
    let ghost fuel0: u64 = fuel;
    let ghost mut done: nat = 0;
    proof {
        assert forall|gfile: Seq<u8>, gname: Seq<u8>|
            #[trigger] spec_sealed_encoding(gfile, gname, dv, ibv, cv) implies ({
            &&& gfile.len() == meta.file_size
            &&& meta@.file_name == gname
            &&& gfile.len() == fsz
            &&& (if gl == 0 {
                done + 1 == spec_total_i_block_count(spec_d_block_count(gfile.len()))
            } else {
                done + 1 == spec_sum_of_higher_widths(spec_level_width(gfile.len(), gl))
            })
        }) by {
            let dd = spec_d_block_count(gfile.len());
            let w0 = spec_depth_zero_width(dd);
            let hg = spec_chain_height(w0);
            lemma_ceil_div_covers(gfile.len() as nat, DBLOCK_SIZE_IN_BYTES as nat);
            lemma_depth_zero_is_ceil(dd);
            assert(gfile.len() == fsz);
            assert(gl == hg);
            if hg >= 1 {
                lemma_width_link(gfile.len() as nat, (hg + 1) as nat);
                assert(spec_sum_of_higher_widths(spec_level_width(gfile.len(), hg))
                    == spec_level_width(gfile.len(), (hg + 1) as nat)
                    + spec_sum_of_higher_widths(spec_level_width(gfile.len(), (hg + 1) as nat)));
                lemma_chain_height_width(w0);
                assert(spec_level_width(gfile.len(), (hg + 1) as nat) == 1);
            } else {
                assert(w0 == 1);
                assert(spec_total_i_block_count(dd) == 1);
            }
        }
    }
    #[verifier::loop_isolation(true)]
    while queue.len() > 0
        invariant
            dv == d_block_bf@,
            ibv == i_block_bf@,
            cv == i_block_chk_bf@,
            d_block_bf.inv(),
            i_block_bf.inv(),
            fsz == meta.file_size as nat,
            file_size == meta.file_size,
            fuel0 as int == d_block_bf@.n_field() + i_block_bf@.n_field() + 4,
            output@.len() == file_size,
            forall|k: int| 0 <= k < queue@.len() ==> (#[trigger] queue@[k])@.wf(),
            fuel as nat + done == fuel0 as nat,
            forall|gfile: Seq<u8>, gname: Seq<u8>|
                #[trigger] spec_sealed_encoding(gfile, gname, dv, ibv, cv) ==> ({
                    let lwg = spec_level_width(gfile.len(), gl) as int;
                    let lwb = spec_level_width(gfile.len(), (gl - 1) as nat) as int;
                    let tail: int = if gl == 0 {
                        0
                    } else if 256 * (a as int) <= lwb {
                        256 * (a as int)
                    } else {
                        lwb
                    };
                    &&& gfile.len() == meta.file_size
                    &&& meta@.file_name == gname
                    &&& gfile.len() == fsz
                    &&& a <= lwg
                    &&& lwg >= 1
                    &&& gl >= 1 ==> lwg >= 2
                    &&& queue@.len() > 0 ==> (a as int) < lwg
                    &&& queue@.len() == (lwg - a) + tail
                    &&& forall|q: int|
                        0 <= q < lwg - a ==> spec_seals_node(
                            (#[trigger] queue@[q])@,
                            gfile,
                            gname,
                            gl,
                            a + q,
                            dv,
                            ibv,
                        )
                    &&& forall|q: int|
                        lwg - a <= q < queue@.len() ==> spec_seals_node(
                            (#[trigger] queue@[q])@,
                            gfile,
                            gname,
                            (gl - 1) as nat,
                            q - (lwg - a),
                            dv,
                            ibv,
                        )
                    &&& (if gl == 0 {
                        done + 1 == spec_total_i_block_count(spec_d_block_count(gfile.len())) + a
                    } else {
                        done + 1 == spec_sum_of_higher_widths(spec_level_width(gfile.len(), gl))
                            + a
                    })
                    &&& gl == 0 ==> forall|pos: int|
                        0 <= pos < (a as int) * (DBLOCK_SIZE_IN_BYTES as int) && pos < gfile.len()
                            ==> #[trigger] output@[pos] == gfile[pos]
                }),
        decreases fuel,
    {
        if fuel == 0 {
            proof {
                assert forall|gfile: Seq<u8>, gname: Seq<u8>|
                    !(#[trigger] spec_sealed_encoding(gfile, gname, dv, ibv, cv)) by {
                    if spec_sealed_encoding(gfile, gname, dv, ibv, cv) {
                        let dd = spec_d_block_count(gfile.len());
                        let w0 = spec_depth_zero_width(dd);
                        let tt = spec_total_i_block_count(dd);
                        lemma_ceil_div_covers(gfile.len() as nat, DBLOCK_SIZE_IN_BYTES as nat);
                        lemma_depth_zero_is_ceil(dd);
                        assert(dv.slots.len() >= dd >= 1);
                        assert(ibv.slots.len() >= tt >= 1);
                        assert(fuel0 as int == dv.slots.len() + ibv.slots.len() + 2);
                        if gl >= 1 {
                            lemma_sum_chain_bound(w0, (gl - 1) as nat);
                            assert(done + 1 <= tt);
                        } else {
                            assert(done + 1 <= tt + dd);
                        }
                        assert(done < fuel0 as nat);
                    }
                }
            }
            return Err(CoreError::Corrupted);
        }
        fuel = fuel - 1;
        let ghost prevq = queue@;
        let chk = queue.pop_front().unwrap();
        if chk.block_type == BlockType::IBlock.as_u32() {
            proof {
                if gl == 0 {
                    assert forall|gfile: Seq<u8>, gname: Seq<u8>|
                        !(#[trigger] spec_sealed_encoding(gfile, gname, dv, ibv, cv)) by {
                        if spec_sealed_encoding(gfile, gname, dv, ibv, cv) {
                            lemma_open_leaf(prevq[0]@, gfile, gname, a as int, dv, ibv);
                        }
                    }
                } else {
                    assert forall|gfile: Seq<u8>, gname: Seq<u8>|
                        #[trigger] spec_sealed_encoding(gfile, gname, dv, ibv, cv) implies ({
                        &&& spec_seals_node(chk@, gfile, gname, gl, a as int, dv, ibv)
                        &&& (chk@.bf_index as int) < ibv.slots.len()
                    }) by {
                        assert(prevq[0]@ == chk@);
                        assert(spec_seals_node(prevq[0]@, gfile, gname, gl, a as int, dv, ibv));
                        lemma_ceil_div_covers(gfile.len() as nat, DBLOCK_SIZE_IN_BYTES as nat);
                        lemma_open_node(chk@, gfile, gname, gl, a as int, dv, ibv);
                    }
                }
            }
            let cipher = match i_block_bf.read_nth_block(chk.bf_index as usize) {
                Ok(b) => b,
                Err(_) => {
                    return Err(CoreError::Corrupted);
                },
            };
            if cipher.len() > 0x7fff_ffff {
                proof {
                    assert forall|gfile: Seq<u8>, gname: Seq<u8>|
                        !(#[trigger] spec_sealed_encoding(gfile, gname, dv, ibv, cv)) by {
                        if spec_sealed_encoding(gfile, gname, dv, ibv, cv) {
                            lemma_ceil_div_covers(gfile.len() as nat, DBLOCK_SIZE_IN_BYTES as nat);
                            lemma_open_node(chk@, gfile, gname, gl, a as int, dv, ibv);
                            crate::i_block::lemma_serialize_i_block_len(
                                spec_node_block(chk@, cipher@),
                            );
                        }
                    }
                }
                return Err(CoreError::Corrupted);
            }
            let new_i_block = match decrypt_i_block(
                chk.key.as_slice(),
                chk.iv.as_slice(),
                cipher.as_slice(),
            ) {
                Ok(b) => b,
                Err(e) => {
                    proof {
                        assert forall|gfile: Seq<u8>, gname: Seq<u8>|
                            !(#[trigger] spec_sealed_encoding(gfile, gname, dv, ibv, cv)) by {
                            if spec_sealed_encoding(gfile, gname, dv, ibv, cv) {
                                lemma_ceil_div_covers(
                                    gfile.len() as nat,
                                    DBLOCK_SIZE_IN_BYTES as nat,
                                );
                                lemma_open_node(chk@, gfile, gname, gl, a as int, dv, ibv);
                            }
                        }
                    }
                    return Err(e);
                },
            };
            proof {
                lemma_parse_i_block_chks_wf(chacha_decrypt_of(chk.key@, chk.iv@, cipher@));
            }
            let ghost midq = queue@;
            let mut k: usize = 0;
            while k < new_i_block.chks.len()
                invariant
                    k <= new_i_block.chks@.len(),
                    output@.len() == file_size,
                    queue@.len() == midq.len() + k,
                    forall|q: int| 0 <= q < queue@.len() ==> (#[trigger] queue@[q])@.wf(),
                    forall|q: int| 0 <= q < midq.len() ==> #[trigger] queue@[q] == midq[q],
                    forall|q: int|
                        0 <= q < k ==> (#[trigger] queue@[midq.len() + q])@ == new_i_block@.chks[q],
                decreases new_i_block.chks@.len() - k,
            {
                proof {
                    assert(new_i_block.chks@[k as int]@ == new_i_block@.chks[k as int]);
                }
                queue.push_back(new_i_block.chks[k].clone());
                k = k + 1;
            }
            proof {
                let ghost olda = a;
                done = done + 1;
                a = a + 1;
                assert forall|gfile: Seq<u8>, gname: Seq<u8>|
                    #[trigger] spec_sealed_encoding(gfile, gname, dv, ibv, cv) implies ({
                    let lwg = spec_level_width(gfile.len(), gl) as int;
                    let lwb = spec_level_width(gfile.len(), (gl - 1) as nat) as int;
                    let tail: int = if 256 * (a as int) <= lwb {
                        256 * (a as int)
                    } else {
                        lwb
                    };
                    &&& gl >= 1
                    &&& a <= lwg
                    &&& queue@.len() == (lwg - a) + tail
                    &&& forall|q: int|
                        0 <= q < lwg - a ==> spec_seals_node(
                            (#[trigger] queue@[q])@,
                            gfile,
                            gname,
                            gl,
                            a + q,
                            dv,
                            ibv,
                        )
                    &&& forall|q: int|
                        lwg - a <= q < queue@.len() ==> spec_seals_node(
                            (#[trigger] queue@[q])@,
                            gfile,
                            gname,
                            (gl - 1) as nat,
                            q - (lwg - a),
                            dv,
                            ibv,
                        )
                    &&& done + 1 == spec_sum_of_higher_widths(spec_level_width(gfile.len(), gl))
                        + a
                }) by {
                    let lwg = spec_level_width(gfile.len(), gl) as int;
                    let lwb = spec_level_width(gfile.len(), (gl - 1) as nat) as int;
                    assert(spec_seals_node(chk@, gfile, gname, gl, olda as int, dv, ibv));
                    lemma_ceil_div_covers(gfile.len() as nat, DBLOCK_SIZE_IN_BYTES as nat);
                    lemma_open_node(chk@, gfile, gname, gl, olda as int, dv, ibv);
                    let ib = spec_node_block(chk@, ibv.slots[chk@.bf_index as int]);
                    assert(cipher@ == ibv.slots[chk@.bf_index as int]);
                    assert(new_i_block@ == ib);
                    assert(midq.len() == prevq.len() - 1);
                    assert forall|q: int| 0 <= q < lwg - a implies spec_seals_node(
                        (#[trigger] queue@[q])@,
                        gfile,
                        gname,
                        gl,
                        a + q,
                        dv,
                        ibv,
                    ) by {
                        assert(queue@[q] == midq[q]);
                        assert(midq[q] == prevq[q + 1]);
                        assert(spec_seals_node(
                            prevq[q + 1]@,
                            gfile,
                            gname,
                            gl,
                            olda + (q + 1),
                            dv,
                            ibv,
                        ));
                    }
                    let oldtail: int = if 256 * (olda as int) <= lwb {
                        256 * (olda as int)
                    } else {
                        lwb
                    };
                    assert(oldtail == 256 * (olda as int));
                    assert forall|q: int| lwg - a <= q < queue@.len() implies spec_seals_node(
                        (#[trigger] queue@[q])@,
                        gfile,
                        gname,
                        (gl - 1) as nat,
                        q - (lwg - a),
                        dv,
                        ibv,
                    ) by {
                        if q < midq.len() {
                            assert(queue@[q] == midq[q]);
                            assert(midq[q] == prevq[q + 1]);
                            assert(lwg - olda <= q + 1 < prevq.len());
                            assert(spec_seals_node(
                                prevq[q + 1]@,
                                gfile,
                                gname,
                                (gl - 1) as nat,
                                q + 1 - (lwg - olda),
                                dv,
                                ibv,
                            ));
                        } else {
                            let j = q - midq.len();
                            assert((queue@[midq.len() + j])@ == new_i_block@.chks[j]);
                            assert((queue@[q])@ == new_i_block@.chks[j]);
                            assert(spec_seals_node(
                                new_i_block@.chks[j],
                                gfile,
                                gname,
                                (gl - 1) as nat,
                                256 * (olda as int) + j,
                                dv,
                                ibv,
                            ));
                        }
                    }
                }
                if gl >= 1 && a == spec_level_width(fsz, gl) {
                    let ghost oldgl = gl;
                    let ghost oldx = a;
                    gl = (gl - 1) as nat;
                    a = 0;
                    assert forall|gfile: Seq<u8>, gname: Seq<u8>|
                        #[trigger] spec_sealed_encoding(gfile, gname, dv, ibv, cv) implies ({
                        let lwg = spec_level_width(gfile.len(), gl) as int;
                        let lwb = spec_level_width(gfile.len(), (gl - 1) as nat) as int;
                        let tail: int = if gl == 0 {
                            0
                        } else if 256 * (a as int) <= lwb {
                            256 * (a as int)
                        } else {
                            lwb
                        };
                        &&& a <= lwg
                        &&& lwg >= 1
                        &&& gl >= 1 ==> lwg >= 2
                        &&& queue@.len() > 0 ==> (a as int) < lwg
                        &&& queue@.len() == (lwg - a) + tail
                        &&& forall|q: int|
                            0 <= q < lwg - a ==> spec_seals_node(
                                (#[trigger] queue@[q])@,
                                gfile,
                                gname,
                                gl,
                                a + q,
                                dv,
                                ibv,
                            )
                        &&& (if gl == 0 {
                            done + 1 == spec_total_i_block_count(spec_d_block_count(gfile.len()))
                                + a
                        } else {
                            done + 1 == spec_sum_of_higher_widths(
                                spec_level_width(gfile.len(), gl),
                            ) + a
                        })
                    }) by {
                        let lwup = spec_level_width(gfile.len(), oldgl) as int;
                        let lwg = spec_level_width(gfile.len(), gl) as int;
                        let dd = spec_d_block_count(gfile.len());
                        let w0 = spec_depth_zero_width(dd);
                        lemma_ceil_div_covers(gfile.len() as nat, DBLOCK_SIZE_IN_BYTES as nat);
                        lemma_depth_zero_is_ceil(dd);
                        lemma_width_link(gfile.len() as nat, oldgl);
                        assert(256 * lwup >= lwg);
                        if oldgl == 1 {
                            assert(spec_total_i_block_count(dd) == w0
                                + spec_sum_of_higher_widths(w0));
                        }
                    }
                }
            }
        } else {
            let ghost ai = a as int;
            proof {
                if gl >= 1 {
                    assert forall|gfile: Seq<u8>, gname: Seq<u8>|
                        !(#[trigger] spec_sealed_encoding(gfile, gname, dv, ibv, cv)) by {
                        if spec_sealed_encoding(gfile, gname, dv, ibv, cv) {
                            assert(spec_seals_node(prevq[0]@, gfile, gname, gl, ai, dv, ibv));
                            lemma_ceil_div_covers(gfile.len() as nat, DBLOCK_SIZE_IN_BYTES as nat);
                            lemma_open_node(prevq[0]@, gfile, gname, gl, ai, dv, ibv);
                        }
                    }
                } else {
                    assert forall|gfile: Seq<u8>, gname: Seq<u8>|
                        #[trigger] spec_sealed_encoding(gfile, gname, dv, ibv, cv) implies ({
                        &&& chk@ == prevq[0]@
                        &&& spec_d_chk_ok(chk@, gfile, ai, dv.slots[ai])
                        &&& ai < spec_d_block_count(gfile.len())
                        &&& ai < dv.slots.len()
                    }) by {
                        assert(spec_seals_node(prevq[0]@, gfile, gname, 0, ai, dv, ibv));
                        lemma_open_leaf(prevq[0]@, gfile, gname, ai, dv, ibv);
                    }
                }
            }
            let cipher = match d_block_bf.read_nth_block(chk.bf_index as usize) {
                Ok(b) => b,
                Err(_) => {
                    proof {
                        assert forall|gfile: Seq<u8>, gname: Seq<u8>|
                            !(#[trigger] spec_sealed_encoding(gfile, gname, dv, ibv, cv)) by {
                            if spec_sealed_encoding(gfile, gname, dv, ibv, cv) {
                                assert(chk@.bf_index == ai);
                            }
                        }
                    }
                    return Err(CoreError::Corrupted);
                },
            };
            if cipher.len() > 0x7fff_ffff {
                proof {
                    assert forall|gfile: Seq<u8>, gname: Seq<u8>|
                        !(#[trigger] spec_sealed_encoding(gfile, gname, dv, ibv, cv)) by {
                        if spec_sealed_encoding(gfile, gname, dv, ibv, cv) {
                            lemma_group_start(
                                gfile.len() as nat,
                                DBLOCK_SIZE_IN_BYTES as nat,
                                ai as nat,
                            );
                            lemma_d_block_round_trip(
                                DBlockV {
                                    header: BlockHeader {
                                        block_type: BlockType::DBlock.code(),
                                    },
                                    data: spec_chunk(gfile, ai),
                                },
                            );
                            assert(cipher@.len() == spec_d_block_plain(gfile, ai).len());
                        }
                    }
                }
                return Err(CoreError::Corrupted);
            }
            let d_block = match decrypt_d_block(
                chk.key.as_slice(),
                chk.iv.as_slice(),
                cipher.as_slice(),
            ) {
                Ok(b) => b,
                Err(e) => {
                    proof {
                        assert forall|gfile: Seq<u8>, gname: Seq<u8>|
                            !(#[trigger] spec_sealed_encoding(gfile, gname, dv, ibv, cv)) by {
                            if spec_sealed_encoding(gfile, gname, dv, ibv, cv) {
                                lemma_group_start(
                                    gfile.len() as nat,
                                    DBLOCK_SIZE_IN_BYTES as nat,
                                    ai as nat,
                                );
                                assert(cipher@ == chacha_encrypt_of(
                                    chk.key@,
                                    chk.iv@,
                                    spec_d_block_plain(gfile, ai),
                                ));
                                assert((DBlockV {
                                    header: BlockHeader { block_type: BlockType::DBlock.code() },
                                    data: spec_chunk(gfile, ai),
                                }).wf());
                            }
                        }
                    }
                    return Err(e);
                },
            };
            proof {
                assert forall|gfile: Seq<u8>, gname: Seq<u8>|
                    #[trigger] spec_sealed_encoding(gfile, gname, dv, ibv, cv) implies
                    d_block@.data == spec_chunk(gfile, ai) by {
                    lemma_group_start(gfile.len() as nat, DBLOCK_SIZE_IN_BYTES as nat, ai as nat);
                    assert(cipher@ == chacha_encrypt_of(
                        chk.key@,
                        chk.iv@,
                        spec_d_block_plain(gfile, ai),
                    ));
                    assert((DBlockV {
                        header: BlockHeader { block_type: BlockType::DBlock.code() },
                        data: spec_chunk(gfile, ai),
                    }).wf());
                }
            }
            let offset = (chk.bf_index as u64) * DBLOCK_SIZE_IN_BYTES;
            let mut k: usize = 0;
            while k < d_block.data.len()
                invariant
                    k <= d_block.data@.len(),
                    output@.len() == file_size,
                    forall|q: int| 0 <= q < queue@.len() ==> (#[trigger] queue@[q])@.wf(),
                    forall|gfile: Seq<u8>, gname: Seq<u8>|
                        #[trigger] spec_sealed_encoding(gfile, gname, dv, ibv, cv) ==> ({
                            &&& offset == ai * (DBLOCK_SIZE_IN_BYTES as int)
                            &&& d_block@.data == spec_chunk(gfile, ai)
                            &&& gfile.len() == file_size
                            &&& forall|pos: int|
                                0 <= pos < ai * (DBLOCK_SIZE_IN_BYTES as int) && pos
                                    < gfile.len() ==> #[trigger] output@[pos] == gfile[pos]
                            &&& forall|pos: int|
                                offset <= pos < offset + k ==> #[trigger] output@[pos] == gfile[
                                pos]
                        }),
                decreases d_block.data@.len() - k,
            {
                let pos64 = offset + k as u64;
                let ghost prevout = output@;
                if pos64 < file_size as u64 {
                    output.set(pos64 as usize, d_block.data[k]);
                }
                proof {
                    assert forall|gfile: Seq<u8>, gname: Seq<u8>|
                        #[trigger] spec_sealed_encoding(gfile, gname, dv, ibv, cv) implies ({
                        &&& forall|pos: int|
                            0 <= pos < ai * (DBLOCK_SIZE_IN_BYTES as int) && pos < gfile.len()
                                ==> #[trigger] output@[pos] == gfile[pos]
                        &&& forall|pos: int|
                            offset <= pos < offset + (k + 1) ==> #[trigger] output@[pos] == gfile[
                            pos]
                    }) by {
                        assert(d_block@.data == spec_chunk(gfile, ai));
                        lemma_group_start(
                            gfile.len() as nat,
                            DBLOCK_SIZE_IN_BYTES as nat,
                            ai as nat,
                        );
                        assert(offset + k < gfile.len());
                        assert(d_block.data@[k as int] == spec_chunk(gfile, ai)[k as int]);
                        assert(spec_chunk(gfile, ai)[k as int] == gfile[offset + k]);
                        assert forall|pos: int|
                            offset <= pos < offset + (k + 1) implies #[trigger] output@[pos]
                            == gfile[pos] by {
                            if pos < offset + k {
                                assert(prevout[pos] == gfile[pos]);
                            }
                        }
                    }
                }
                k = k + 1;
            }
            proof {
                done = done + 1;
                a = a + 1;
                assert forall|gfile: Seq<u8>, gname: Seq<u8>|
                    #[trigger] spec_sealed_encoding(gfile, gname, dv, ibv, cv) implies ({
                    let lwg = spec_level_width(gfile.len(), gl) as int;
                    &&& a <= lwg
                    &&& queue@.len() == lwg - a
                    &&& forall|q: int|
                        0 <= q < lwg - a ==> spec_seals_node(
                            (#[trigger] queue@[q])@,
                            gfile,
                            gname,
                            gl,
                            a + q,
                            dv,
                            ibv,
                        )
                    &&& done + 1 == spec_total_i_block_count(spec_d_block_count(gfile.len())) + a
                    &&& forall|pos: int|
                        0 <= pos < (a as int) * (DBLOCK_SIZE_IN_BYTES as int) && pos < gfile.len()
                            ==> #[trigger] output@[pos] == gfile[pos]
                }) by {
                    let lwg = spec_level_width(gfile.len(), gl) as int;
                    assert forall|q: int| 0 <= q < lwg - a implies spec_seals_node(
                        (#[trigger] queue@[q])@,
                        gfile,
                        gname,
                        gl,
                        a + q,
                        dv,
                        ibv,
                    ) by {
                        assert(queue@[q] == prevq[q + 1]);
                        assert(spec_seals_node(
                            prevq[q + 1]@,
                            gfile,
                            gname,
                            gl,
                            ai + (q + 1),
                            dv,
                            ibv,
                        ));
                    }
                    assert(d_block@.data == spec_chunk(gfile, ai));
                    assert((a as int) * (DBLOCK_SIZE_IN_BYTES as int) == ai * (
                    DBLOCK_SIZE_IN_BYTES as int) + DBLOCK_SIZE_IN_BYTES);
                    assert forall|pos: int|
                        0 <= pos < (a as int) * (DBLOCK_SIZE_IN_BYTES as int) && pos < gfile.len()
                            implies #[trigger] output@[pos] == gfile[pos] by {
                        if pos >= ai * (DBLOCK_SIZE_IN_BYTES as int) {
                            assert(spec_chunk(gfile, ai).len() == (if (ai + 1) * (
                            DBLOCK_SIZE_IN_BYTES as int) <= gfile.len() {
                                DBLOCK_SIZE_IN_BYTES as int
                            } else {
                                gfile.len() - ai * (DBLOCK_SIZE_IN_BYTES as int)
                            }));
                            assert(offset <= pos < offset + d_block.data@.len());
                        }
                    }
                }
            }
        }
    }
    proof {
        assert forall|gfile: Seq<u8>, gname: Seq<u8>|
            #[trigger] spec_sealed_encoding(gfile, gname, dv, ibv, cv) implies (output@ == gfile
            && meta@.file_name == gname && meta.file_size == gfile.len()) by {
            let lwg = spec_level_width(gfile.len(), gl) as int;
            let lwb = spec_level_width(gfile.len(), (gl - 1) as nat) as int;
            if gl >= 1 {
                assert(a == lwg);
                assert(lwg >= 2);
                lemma_ceil_div_covers(gfile.len() as nat, DBLOCK_SIZE_IN_BYTES as nat);
                lemma_width_link(gfile.len() as nat, gl);
                assert(lwb >= 1);
                assert(queue@.len() > 0);
                assert(false);
            }
            assert(a == spec_d_block_count(gfile.len()));
            lemma_ceil_div_covers(gfile.len() as nat, DBLOCK_SIZE_IN_BYTES as nat);
            assert(gfile.len() <= (a as int) * (DBLOCK_SIZE_IN_BYTES as int));
            assert(output@ =~= gfile);
        }
    }
    Ok((meta, output))
}

} // verus!
