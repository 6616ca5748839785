//! Download bookkeeping: a downloader that extensions can expose, and
//! groups of downloads started together. The network transfer itself is
//! outside work; stopping a download is a request towards it, a no-op in
//! this in-memory bookkeeping.
use vstd::prelude::*;

verus! {

/// One download in flight.
pub struct Download {
    url: String,
}

/// A downloader an extension can expose.
pub struct Downloader {
    items: Vec<Download>,
}

/// The downloads started by one request.
pub struct DownloadGroup {
    items: Vec<Download>,
}

impl Download {
    /// The address this download fetches.
    pub closed spec fn spec_url(self) -> Seq<char> {
        self.url@
    }

    /// Requests the transfer to stop.
    pub fn stop(&self) {
    }
}

impl Downloader {
    /// A downloader with no downloads yet.
    pub fn new() -> (r: Downloader)
        ensures
            r.size() == 0,
    {
        Downloader { items: Vec::new() }
    }

    /// How many downloads this downloader tracks.
    pub closed spec fn size(self) -> nat {
        self.items@.len()
    }

    /// Starts one download per address, in the order given.
    pub fn download_files_over_http(urls: Vec<String>) -> (r: DownloadGroup)
        ensures
            r.urls() == urls@.map_values(|u: String| u@),
    {
        let n = urls.len();
        let mut items: Vec<Download> = Vec::new();
        let mut i: usize = 0;
        while i < n
            invariant
                i <= n,
                n == urls@.len(),
                items@.len() == i,
                forall|k: int| 0 <= k < i ==> (#[trigger] items@[k]).spec_url() == urls@[k]@,
            decreases n - i,
        {
            items.push(Download { url: urls[i].clone() });
            i += 1;
        }
        let r = DownloadGroup { items };
        proof {
            assert(r.urls() =~= urls@.map_values(|u: String| u@));
        }
        r
    }
}

impl DownloadGroup {
    /// The addresses of the downloads of this group, in order.
    pub closed spec fn urls(self) -> Seq<Seq<char>> {
        self.items@.map_values(|d: Download| d.spec_url())
    }

    /// Requests every download of the group to stop.
    pub fn stop_all(&self) {
        let n = self.items.len();
        let mut i: usize = 0;
        while i < n
            invariant
                n == self.items@.len(),
            decreases n - i,
        {
            let download = &self.items[i];
            download.stop();
            i += 1;
        }
    }
}

} // verus!
