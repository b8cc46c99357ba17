//! RSA-PSS verification of a logical block against the bytes that actually
//! landed at its destination region. The wire contract is fixed: SHA-256,
//! PKCS#1 PSS padding, MGF1 with SHA-256, salt length 0.

use vstd::prelude::*;
use crate::device::Device;
use crate::memory::LogicalBlockDestination;
use crate::memory::Region;
use crate::reporting::LogicalBlockError;
use crate::reporting::UpdateError;
use crate::reporting::UpdateFault;
use crate::software_archive::BlockInfo;
use crate::software_archive::LogicalBlock;

verus! {

/// What standard base64 decoding of `s` yields, when `s` is valid base64.
pub uninterp spec fn base64_decoding(s: Seq<char>) -> Option<Seq<u8>>;

/// The verdict of RSA-PSS (SHA-256, MGF1 SHA-256, salt length 0) on
/// `data` under the PEM key, or nothing when the key or engine is rejected.
/// Verification is deterministic: a function of the three byte strings.
pub uninterp spec fn pss_verdict(key_pem: Seq<u8>, data: Seq<u8>, signature: Seq<u8>) -> Option<
    bool,
>;

/// Relies on base64's `STANDARD` engine (`Engine::decode`): the outcome
/// depends on the encoded characters alone.
#[verifier::external_body]
fn base64_decode(s: &str) -> (r: Option<Vec<u8>>)
    ensures
        r is Some <==> base64_decoding(s@) is Some,
        r matches Some(v) ==> Some(v@) == base64_decoding(s@),
{
    base64::Engine::decode(&base64::engine::general_purpose::STANDARD, s).ok()
}

/// Relies on openssl's `PKey::public_key_from_pem` and `Verifier` driven
/// with SHA-256, `PKCS1_PSS` padding, MGF1 SHA-256 and salt length 0:
/// the verdict is a function of the key, data and signature bytes alone;
/// `None` stands for a key or engine error.
#[verifier::external_body]
fn rsa_pss_sha256_verify(key_pem: &[u8], data: &[u8], signature: &[u8]) -> (r: Option<bool>)
    ensures
        r == pss_verdict(key_pem@, data@, signature@),
{
    let key = openssl::pkey::PKey::public_key_from_pem(key_pem).ok()?;
    let mut v = openssl::sign::Verifier::new(openssl::hash::MessageDigest::sha256(), &key).ok()?;
    v.set_rsa_padding(openssl::rsa::Padding::PKCS1_PSS).ok()?;
    v.set_rsa_pss_saltlen(openssl::sign::RsaPssSaltlen::custom(0)).ok()?;
    v.set_rsa_mgf1_md(openssl::hash::MessageDigest::sha256()).ok()?;
    v.update(data).ok()?;
    v.verify(signature).ok()
}

/// What reading a whole region back yields. It mirrors open, seek and
/// chunked exact reads: the destination file must exist, and a non-empty
/// window must lie inside it.
pub open spec fn spec_read_back(m: Map<Seq<char>, Seq<u8>>, region: Region) -> Option<Seq<u8>> {
    if !m.contains_key(region.path) {
        None
    } else if region.size == 0 {
        Some(Seq::<u8>::empty())
    } else if region.offset + region.size <= m[region.path].len() {
        Some(m[region.path].subrange(region.offset, region.offset + region.size))
    } else {
        None
    }
}

/// The outcome of verifying one block against the destination bytes:
/// the verdict of RSA-PSS over the read-back window, `LogicalBlockRead`
/// when the window cannot be read, `VerificationFailed` when the signature
/// does not decode or the engine rejects the key.
pub open spec fn spec_verify(
    m: Map<Seq<char>, Seq<u8>>,
    region: Region,
    info: BlockInfo,
    key: Seq<u8>,
) -> Result<bool, UpdateFault> {
    match spec_read_back(m, region) {
        None => Err(UpdateFault::BlockRead(info.id)),
        Some(data) => match base64_decoding(info.signature) {
            None => Err(UpdateFault::Verification(info.id)),
            Some(sig) => match pss_verdict(key, data, sig) {
                None => Err(UpdateFault::Verification(info.id)),
                Some(b) => Ok(b),
            },
        },
    }
}

/// Verifies one logical block: re-reads the destination region and checks
/// the manifest signature over those bytes under the public key.
pub struct LogicalBlockVerifier {
    logical_block: LogicalBlockDestination,
    logical_block_info: LogicalBlock,
    public_key: Vec<u8>,
}

impl LogicalBlockVerifier {
    /// The region that is read back.
    pub closed spec fn region(self) -> Region {
        self.logical_block.region()
    }

    /// The manifest record whose signature is checked.
    pub closed spec fn info(self) -> BlockInfo {
        self.logical_block_info.info()
    }

    /// The PEM bytes of the public key.
    pub closed spec fn key(self) -> Seq<u8> {
        self.public_key@
    }

    /// Bundle a destination region, its manifest record and the public key.
    pub fn from(
        logical_block_location: LogicalBlockDestination,
        logical_block_info: LogicalBlock,
        public_key_pem: Vec<u8>,
    ) -> (r: LogicalBlockVerifier)
        ensures
            r.region() == logical_block_location.region(),
            r.info() == logical_block_info.info(),
            r.key() == public_key_pem@,
    {
        LogicalBlockVerifier {
            logical_block: logical_block_location,
            logical_block_info,
            public_key: public_key_pem,
        }
    }

    /// Re-read the destination region and check the RSA-PSS signature over
    /// the bytes that are actually there.
    pub fn verify(&self, device: &Device) -> (r: Result<bool, UpdateError>)
        requires
            device.wf(),
        ensures
            match (r, spec_verify(device.contents(), self.region(), self.info(), self.key())) {
                (Ok(b1), Ok(b2)) => b1 == b2,
                (Err(e), Err(f)) => e.fault() == f,
                _ => false,
            },
    {
        let content = match self.update_verifier_with_logical_block_content(device) {
            Ok(c) => c,
            Err(e) => {
                return Err(e);
            },
        };
        let decoded_signature = match base64_decode(
            self.logical_block_info.get_signature().as_str(),
        ) {
            Some(s) => s,
            None => {
                return Err(UpdateError::VerificationFailed(LogicalBlockError::new(
                    self.logical_block_info.get_id(),
                    "the manifest signature is not valid base64",
                )));
            },
        };
        match rsa_pss_sha256_verify(
            self.public_key.as_slice(),
            content.as_slice(),
            decoded_signature.as_slice(),
        ) {
            Some(n) => Ok(n),
            None => Err(UpdateError::VerificationFailed(LogicalBlockError::new(
                self.logical_block_info.get_id(),
                "the RSA-PSS engine rejected the key or signature",
            ))),
        }
    }

    /// Read the region back in 4096-byte chunks, as the streaming verifier
    /// consumes it.
    fn update_verifier_with_logical_block_content(&self, device: &Device) -> (r: Result<
        Vec<u8>,
        UpdateError,
    >)
        requires
            device.wf(),
        ensures
            match (r, spec_read_back(device.contents(), self.region())) {
                (Ok(c), Some(data)) => c@ == data,
                (Err(e), None) => e.fault() == UpdateFault::BlockRead(self.info().id),
                _ => false,
            },
    {
        let path = self.logical_block.path_string();
        if !device.has_file(path) {
            return Err(UpdateError::LogicalBlockRead(LogicalBlockError::new(
                self.logical_block_info.get_id(),
                "cannot open the destination file for read-back",
            )));
        }
        let total_bytes_to_read = self.logical_block.get_size();
        let offset = self.logical_block.get_offset();
        let mut content: Vec<u8> = Vec::new();
        let mut total_bytes_read: usize = 0;
        while total_bytes_read < total_bytes_to_read
            invariant
                device.wf(),
                total_bytes_read <= total_bytes_to_read,
                total_bytes_to_read as int == self.region().size,
                offset as int == self.region().offset,
                path@ == self.region().path,
                device.contents().contains_key(self.region().path),
                content@.len() == total_bytes_read,
                total_bytes_read > 0 ==> offset as int + total_bytes_read <= usize::MAX,
                total_bytes_read > 0 ==> offset as int + total_bytes_read <= device.contents().index(
                    self.region().path,
                ).len(),
                content@ == device.contents()[self.region().path].subrange(
                    offset as int,
                    offset as int + total_bytes_read,
                ) || total_bytes_read == 0,
            decreases total_bytes_to_read - total_bytes_read,
        {
            let remaining_bytes = total_bytes_to_read - total_bytes_read;
            let bytes_to_read = if remaining_bytes >= 4096 {
                4096
            } else {
                remaining_bytes
            };
            let chunk_offset = match offset.checked_add(total_bytes_read as u64) {
                Some(o) => o,
                None => {
                    return Err(UpdateError::LogicalBlockRead(LogicalBlockError::new(
                        self.logical_block_info.get_id(),
                        "the destination window exceeds the addressable range",
                    )));
                },
            };
            let chunk = match device.read_at(path, chunk_offset, bytes_to_read) {
                Some(c) => c,
                None => {
                    proof {
                        let file = device.contents()[self.region().path];
                        assert(offset as int + total_bytes_read + bytes_to_read > file.len());
                        assert(spec_read_back(device.contents(), self.region()) is None);
                    }
                    return Err(UpdateError::LogicalBlockRead(LogicalBlockError::new(
                        self.logical_block_info.get_id(),
                        "cannot read the destination window back",
                    )));
                },
            };
            let ghost content_before = content@;
            let mut chunk = chunk;
            content.append(&mut chunk);
            total_bytes_read = total_bytes_read + bytes_to_read;
            proof {
                let file = device.contents()[self.region().path];
                assert(content@ =~= file.subrange(
                    offset as int,
                    offset as int + total_bytes_read,
                ));
            }
        }
        proof {
            if total_bytes_to_read == 0 {
                assert(content@ =~= Seq::<u8>::empty());
            }
        }
        Ok(content)
    }
}

} // verus!
