//! Plugin configuration: the distribution URL template.

use vstd::prelude::*;

verus! {

/// The URL template used when the configuration supplies none of its own.
pub open spec fn default_dist_url() -> Seq<char> {
    "https://storage.googleapis.com/storage/v1/b/cloud-sdk-release/o/google-cloud-cli-{version}-{platform}-{arch}.{ext}?alt=media"@
}

/// Configuration for the plugin: the URL template the resolver substitutes
/// into. Read-only after load; no process-wide state is kept.
pub struct GcloudPluginConfig {
    pub dist_url: String,
}

impl Default for GcloudPluginConfig {
    /// The configuration with the stock distribution URL template.
    fn default() -> (c: GcloudPluginConfig)
        ensures
            c.dist_url@ == default_dist_url(),
    {
        GcloudPluginConfig {
            dist_url:
                "https://storage.googleapis.com/storage/v1/b/cloud-sdk-release/o/google-cloud-cli-{version}-{platform}-{arch}.{ext}?alt=media".to_owned(),
        }
    }
}

} // verus!
