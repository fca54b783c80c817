//! The deployment pipeline up to publication: size check, decoding,
//! flattening and the quota.

use vstd::prelude::*;
use crate::archive::{archive_format, format_of, holds, Staged};
use crate::decoders::{extract, extracted};
use crate::error::SiteError;
use crate::publish::PublishState;
use crate::tree::{StagingTree, TreeEntry};

verus! {

/// Refuses an upload that is larger than the configured maximum.
pub fn check_upload_size(len: u64, max_upload_bytes: u64) -> (r: Result<(), SiteError>)
    ensures
        r == if len > max_upload_bytes {
            Err::<(), SiteError>(SiteError::UploadTooLarge { limit: max_upload_bytes })
        } else {
            Ok::<(), SiteError>(())
        },
{
    if len > max_upload_bytes {
        Err(SiteError::UploadTooLarge { limit: max_upload_bytes })
    } else {
        Ok(())
    }
}

/// Refuses a size that exceeds the quota.
pub fn enforce_quota(size: u64, limit: u64) -> (r: Result<(), SiteError>)
    ensures
        r == if size > limit {
            Err::<(), SiteError>(SiteError::QuotaExceeded { size, limit })
        } else {
            Ok::<(), SiteError>(())
        },
{
    if size > limit {
        Err(SiteError::QuotaExceeded { size, limit })
    } else {
        Ok(())
    }
}

/// What an upload comes to before anything is published. The size of the
/// upload is checked first, then its name selects the decoder, then the
/// archive is staged, and last the staged size is held against the quota.
pub open spec fn deployment_of(
    filename: Seq<char>,
    data: Seq<u8>,
    max_upload_bytes: u64,
    quota_bytes: u64,
) -> Result<Staged, SiteError> {
    if data.len() > max_upload_bytes {
        Err(SiteError::UploadTooLarge { limit: max_upload_bytes })
    } else {
        match format_of(filename) {
            None => Err(SiteError::UnsupportedFormat),
            Some(format) => match extracted(format, data) {
                Err(e) => Err(e),
                Ok(staged) => if staged.total > quota_bytes {
                    Err(SiteError::QuotaExceeded { size: staged.total as u64, limit: quota_bytes })
                } else {
                    Ok(staged)
                },
            },
        }
    }
}

/// A staged site that passed every check: the only thing that a
/// publication can be begun with.
#[derive(Debug)]
pub struct Deployment {
    tree: StagingTree,
    quota_bytes: u64,
}

impl Deployment {
    #[verifier::type_invariant]
    spec fn within_quota(self) -> bool {
        self.tree.wf() && self.tree.total_bytes() <= self.quota_bytes
    }

    /// The staged tree.
    pub closed spec fn tree_view(&self) -> StagingTree {
        self.tree
    }

    /// The quota that the tree was held against.
    pub closed spec fn quota_view(&self) -> u64 {
        self.quota_bytes
    }

    /// The staged tree. It is well-formed and within the quota.
    pub fn tree(&self) -> (r: &StagingTree)
        ensures
            *r == self.tree_view(),
            r.wf(),
            r.total_bytes() <= self.quota_view(),
    {
        proof {
            use_type_invariant(self);
        }
        &self.tree
    }

    /// The bytes that the site will take up.
    pub fn disk_usage(&self) -> (r: u64)
        ensures
            r == self.tree_view().total_bytes(),
            r <= self.quota_view(),
    {
        proof {
            use_type_invariant(self);
        }
        self.tree.disk_usage()
    }

    /// Begins the publication: hands over the nodes that are to be written
    /// to the staging location, and the state that the protocol starts in.
    pub fn publish(self) -> (r: (Vec<TreeEntry>, PublishState))
        ensures
            r.0@ == self.tree_view().entries_view(),
            r.1 == PublishState::ClearingStale,
    {
        (self.tree.into_entries(), PublishState::start())
    }
}

/// Whether the result `r` is what `expected` describes: the same failure,
/// or a deployment of what was staged, held against `quota_bytes`.
pub open spec fn is_deployment(
    r: Result<Deployment, SiteError>,
    expected: Result<Staged, SiteError>,
    quota_bytes: u64,
) -> bool {
    match r {
        Ok(deployment) => match expected {
            Ok(staged) => holds(deployment.tree_view(), staged) && deployment.quota_view()
                == quota_bytes,
            Err(_) => false,
        },
        Err(e) => expected == Err::<Staged, SiteError>(e),
    }
}

/// Turns an upload into a staged site that is ready to be published, or
/// says why it is refused. Nothing outside the returned value is touched.
pub fn prepare_deployment(
    filename: &str,
    data: Vec<u8>,
    max_upload_bytes: u64,
    quota_bytes: u64,
) -> (r: Result<Deployment, SiteError>)
    ensures
        is_deployment(
            r,
            deployment_of(filename@, data@, max_upload_bytes, quota_bytes),
            quota_bytes,
        ),
{
    match check_upload_size(data.len() as u64, max_upload_bytes) {
        Ok(_) => {},
        Err(e) => {
            return Err(e);
        },
    }
    let format = match archive_format(filename) {
        Some(format) => format,
        None => {
            return Err(SiteError::UnsupportedFormat);
        },
    };
    let tree = match extract(format, data) {
        Ok(tree) => tree,
        Err(e) => {
            return Err(e);
        },
    };
    match enforce_quota(tree.disk_usage(), quota_bytes) {
        Ok(_) => Ok(Deployment { tree, quota_bytes }),
        Err(e) => Err(e),
    }
}

/// A staged site that is larger than the quota is never handed on for
/// publication: the deployment ends with `QuotaExceeded`.
pub proof fn law_over_quota_is_rejected(
    filename: Seq<char>,
    data: Seq<u8>,
    max_upload_bytes: u64,
    quota_bytes: u64,
)
    requires
        data.len() <= max_upload_bytes,
        format_of(filename) is Some,
        extracted(format_of(filename)->0, data) is Ok,
        extracted(format_of(filename)->0, data)->Ok_0.total > quota_bytes,
    ensures
        deployment_of(filename, data, max_upload_bytes, quota_bytes) == Err::<Staged, SiteError>(
            SiteError::QuotaExceeded {
                size: extracted(format_of(filename)->0, data)->Ok_0.total as u64,
                limit: quota_bytes,
            },
        ),
{
}

/// A deployment that succeeds stays within the quota.
pub proof fn law_deployment_is_within_quota(
    filename: Seq<char>,
    data: Seq<u8>,
    max_upload_bytes: u64,
    quota_bytes: u64,
)
    requires
        deployment_of(filename, data, max_upload_bytes, quota_bytes) is Ok,
    ensures
        deployment_of(filename, data, max_upload_bytes, quota_bytes)->Ok_0.total <= quota_bytes,
        data.len() <= max_upload_bytes,
{
}

} // verus!
