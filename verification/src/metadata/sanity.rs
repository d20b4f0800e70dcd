//! Sanity checks of metadata, for metadata kept on the side (in-header
//! metadata is not checked).
use vstd::prelude::*;
use vstd::string::StringSliceAdditionalSpecFns;
use vstd::arithmetic::power2::pow2;
use crate::address::Address;
use crate::conversions::align_down_spec;
use super::global::MetadataSpec;
use super::side_metadata::context::SideMetadataContext;
use super::side_metadata::sanity::{
    SideMetadataSanity, SanityError, ContentOp, spec_ok, specs_ok, load_result, truncated, context_result,
};

verus! {

/// The sanity checks of a plan's metadata.
pub struct MetadataSanity {
    pub side_metadata_sanity: SideMetadataSanity,
}

impl MetadataSanity {
    /// Sanity checks with nothing registered.
    pub fn new() -> (r: MetadataSanity)
        ensures
            r.side_metadata_sanity.specs_map().len() == 0,
            r.side_metadata_sanity.content_log().len() == 0,
            r.side_metadata_sanity.wf(),
    {
        MetadataSanity { side_metadata_sanity: SideMetadataSanity::new() }
    }

    /// Check the side metadata of a policy and its plan (see `SideMetadataSanity`).
    pub fn verify_metadata_context(&mut self, policy_name: &'static str, metadata_context: &SideMetadataContext) -> (r: Result<(), SanityError>)
        requires
            old(self).side_metadata_sanity.wf(),
            specs_ok(metadata_context.global@),
            specs_ok(metadata_context.local@),
        ensures
            r == context_result(old(self).side_metadata_sanity.specs_map(), metadata_context.global@,
                metadata_context.local@, policy_name.spec_bytes()),
            r is Err ==> *final(self) == *old(self),
            final(self).side_metadata_sanity.wf(),
    {
        self.side_metadata_sanity.verify_metadata_context(policy_name, metadata_context)
    }

    /// Forget everything registered and recorded.
    pub fn reset(&mut self)
        ensures
            final(self).side_metadata_sanity.specs_map().len() == 0,
            final(self).side_metadata_sanity.content_log().len() == 0,
            final(self).side_metadata_sanity.wf(),
    {
        self.side_metadata_sanity.reset();
    }
}

/// Record a bulk zeroing of the side metadata of `[start, start + size)`.
pub fn verify_bzero(sanity: &mut SideMetadataSanity, metadata_spec: MetadataSpec, start: Address, size: u64) -> (r: Result<(), SanityError>)
    requires
        metadata_spec is OnSide,
        metadata_spec->OnSide_0.log_bytes_in_region < 64,
        start + size <= u64::MAX,
    ensures
        r == (if super::side_metadata::sanity::registered(old(sanity).content_log(), metadata_spec->OnSide_0) {
            Ok::<(), SanityError>(())
        } else {
            Err(SanityError::InvalidSpec)
        }),
        ({
            let s = metadata_spec->OnSide_0;
            let p = pow2(s.log_bytes_in_region as nat) as int;
            let a = align_down_spec(start as int, p);
            let e = align_down_spec(start + size, p);
            r is Ok ==> final(sanity).content_log() == old(sanity).content_log().push(ContentOp::Fill(s, a as u64, e as u64, 0))
        }),
        r is Err ==> final(sanity).content_log() == old(sanity).content_log(),
{
    let s = metadata_spec.extract_side_spec();
    sanity.verify_bzero(s, start, size)
}

/// Check a load of `actual_val` from the side metadata of `data_addr`.
pub fn verify_load(sanity: &SideMetadataSanity, metadata_spec: &MetadataSpec, data_addr: Address, actual_val: u64) -> (r: Result<(), SanityError>)
    requires
        *metadata_spec is OnSide,
        spec_ok(metadata_spec->OnSide_0),
        metadata_spec->OnSide_0.meta_addr_fits(data_addr as int),
    ensures
        ({
            let s = metadata_spec->OnSide_0;
            r == load_result(sanity.content_log(), s,
                align_down_spec(data_addr as int, pow2(s.log_bytes_in_region as nat) as int) as u64, actual_val)
        }),
{
    let s = metadata_spec.extract_side_spec();
    sanity.verify_load(s, data_addr, actual_val)
}

/// Record a store of `metadata` to the side metadata of `data_addr`.
pub fn verify_store(sanity: &mut SideMetadataSanity, metadata_spec: MetadataSpec, data_addr: Address, metadata: u64) -> (r: Result<(), SanityError>)
    requires
        metadata_spec is OnSide,
        spec_ok(metadata_spec->OnSide_0),
        metadata_spec->OnSide_0.meta_addr_fits(data_addr as int),
    ensures
        ({
            let s = metadata_spec->OnSide_0;
            let a = align_down_spec(data_addr as int, pow2(s.log_bytes_in_region as nat) as int) as u64;
            &&& r is Ok <==> load_result(old(sanity).content_log(), s, a, super::side_metadata::sanity::value_at(old(sanity).content_log(), s, a)) is Ok
            &&& r is Ok ==> final(sanity).content_log() == old(sanity).content_log().push(
                ContentOp::Store(s, a, truncated(6, s.log_num_of_bits as nat, metadata)))
            &&& r is Err ==> final(sanity).content_log() == old(sanity).content_log()
        }),
{
    let s = metadata_spec.extract_side_spec();
    sanity.verify_store(s, data_addr, metadata, 6)
}

/// Check that `actual_old_val` is the side metadata value of `data_addr`, and
/// record the new value after adding `val_to_add` (wrapping at the metadata's width).
pub fn verify_add(sanity: &mut SideMetadataSanity, metadata_spec: MetadataSpec, data_addr: Address, val_to_add: u64, actual_old_val: u64) -> (r: Result<(), SanityError>)
    requires
        metadata_spec is OnSide,
        spec_ok(metadata_spec->OnSide_0),
        metadata_spec->OnSide_0.meta_addr_fits(data_addr as int),
    ensures
        ({
            let s = metadata_spec->OnSide_0;
            let a = align_down_spec(data_addr as int, pow2(s.log_bytes_in_region as nat) as int) as u64;
            let new_val = ((actual_old_val + val_to_add) % 0x1_0000_0000_0000_0000) as u64;
            &&& r == load_result(old(sanity).content_log(), s, a, actual_old_val)
            &&& r is Ok ==> final(sanity).content_log() == old(sanity).content_log().push(
                ContentOp::Store(s, a, truncated(6, s.log_num_of_bits as nat, new_val)))
            &&& r is Err ==> final(sanity).content_log() == old(sanity).content_log()
        }),
{
    let s = metadata_spec.extract_side_spec();
    sanity.verify_update(s, data_addr, actual_old_val, actual_old_val.wrapping_add(val_to_add), 6)
}

/// Check that `actual_old_val` is the side metadata value of `data_addr`, and
/// record the new value after subtracting `val_to_sub` (wrapping at the metadata's width).
pub fn verify_sub(sanity: &mut SideMetadataSanity, metadata_spec: MetadataSpec, data_addr: Address, val_to_sub: u64, actual_old_val: u64) -> (r: Result<(), SanityError>)
    requires
        metadata_spec is OnSide,
        spec_ok(metadata_spec->OnSide_0),
        metadata_spec->OnSide_0.meta_addr_fits(data_addr as int),
    ensures
        ({
            let s = metadata_spec->OnSide_0;
            let a = align_down_spec(data_addr as int, pow2(s.log_bytes_in_region as nat) as int) as u64;
            let new_val = ((actual_old_val - val_to_sub) % 0x1_0000_0000_0000_0000) as u64;
            &&& r == load_result(old(sanity).content_log(), s, a, actual_old_val)
            &&& r is Ok ==> final(sanity).content_log() == old(sanity).content_log().push(
                ContentOp::Store(s, a, truncated(6, s.log_num_of_bits as nat, new_val)))
            &&& r is Err ==> final(sanity).content_log() == old(sanity).content_log()
        }),
{
    let s = metadata_spec.extract_side_spec();
    sanity.verify_update(s, data_addr, actual_old_val, actual_old_val.wrapping_sub(val_to_sub), 6)
}

} // verus!
