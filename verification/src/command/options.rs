//! The options of the client, and what follows from them before a device is
//! opened.
use vstd::prelude::*;
use vstd::utf8::encode_utf8;

use crate::command::topology::{device_from, named_device, Topology};
use crate::mup1::checksum::ChecksumType;
use crate::text::{cat, owned, same, texts};

verus! {

/// The options of the client.
#[derive(Debug)]
pub struct Opts {
    /// The device to connect to.
    pub device: Option<String>,
    /// A key file: encryption is not supported.
    pub key: Option<String>,
    /// `crc32`, or anything else for the one's-complement sum.
    pub checksum_type: String,
    pub baudrate: u32,
    /// `fetch`, `ipatch`, `get`, `put`, `post` or `delete`.
    pub method: Option<String>,
    /// The file to read the request from.
    pub input: Option<String>,
    /// The file to write the response to.
    pub output: Option<String>,
    pub input_format: Option<String>,
    pub output_format: Option<String>,
    /// Query parameters, at most one of each group.
    pub query: Vec<String>,
    pub verbose: bool,
    /// Whether errors in the data are to be passed over.
    pub continue_on_error: bool,
    /// Whether to use the catalog of the current workspace.
    pub workspace: bool,
    /// Whether to use the catalog for the software of the device.
    pub no_workspace: bool,
}

/// The group of a query parameter: its first two bytes.
pub open spec fn query_group(q: Seq<char>) -> Seq<u8> {
    let raw = encode_utf8(q);
    if raw.len() <= 2 {
        raw
    } else {
        raw.subrange(0, 2)
    }
}

/// Whether the group of the `n`-th parameter is that of an earlier one.
pub open spec fn repeats(query: Seq<Seq<char>>, n: int) -> bool {
    exists|k: int| 0 <= k < n && query_group(#[trigger] query[k]) == query_group(query[n])
}

/// The first parameter, from `from` on, whose group is that of an earlier
/// one.
pub open spec fn first_repeat(query: Seq<Seq<char>>, from: int) -> Option<int>
    decreases query.len() - from,
{
    if from >= query.len() {
        None
    } else if repeats(query, from) {
        Some(from)
    } else {
        first_repeat(query, from + 1)
    }
}

/// Whether the first two bytes of two parameters are the same.
fn same_group(a: &str, b: &str) -> (r: bool)
    ensures
        r == (query_group(a@) == query_group(b@)),
{
    let x = a.as_bytes();
    let y = b.as_bytes();
    let n: usize = if x.len() < 2 {
        x.len()
    } else {
        2
    };
    let m: usize = if y.len() < 2 {
        y.len()
    } else {
        2
    };
    proof {
        assert(query_group(a@) =~= x@.subrange(0, n as int));
        assert(query_group(b@) =~= y@.subrange(0, m as int));
    }
    if n != m {
        return false;
    }
    let mut i: usize = 0;
    while i < n
        invariant
            i <= n,
            n == m,
            n <= x@.len(),
            m <= y@.len(),
            query_group(a@) == x@.subrange(0, n as int),
            query_group(b@) == y@.subrange(0, m as int),
            forall|k: int| 0 <= k < i ==> x@[k] == y@[k],
        decreases n - i,
    {
        if x[i] != y[i] {
            assert(x@.subrange(0, n as int)[i as int] != y@.subrange(0, m as int)[i as int]);
            return false;
        }
        i += 1;
    }
    assert(x@.subrange(0, n as int) =~= y@.subrange(0, m as int));
    true
}

/// The checksum that an option names.
pub open spec fn checksum_named(s: Seq<char>) -> ChecksumType {
    if s == "crc32"@ {
        ChecksumType::Crc32
    } else {
        ChecksumType::Internet
    }
}

/// What a run begins with.
#[derive(Debug)]
pub struct Plan {
    pub device: String,
    pub method: String,
    pub checksum_type: ChecksumType,
    /// Whether the catalog of the workspace is used.
    pub use_workspace: bool,
}

/// What a [`Plan`] stands for.
#[verifier::ext_equal]
pub struct PlanView {
    pub device: Seq<char>,
    pub method: Seq<char>,
    pub checksum_type: ChecksumType,
    pub use_workspace: bool,
}

impl View for Plan {
    type V = PlanView;

    open spec fn view(&self) -> PlanView {
        PlanView {
            device: self.device@,
            method: self.method@,
            checksum_type: self.checksum_type,
            use_workspace: self.use_workspace,
        }
    }
}

/// Whether a catalog was asked for, and which one.
pub open spec fn asked_workspace(o: Opts) -> Option<bool> {
    if o.workspace {
        Some(true)
    } else if o.no_workspace {
        Some(false)
    } else {
        None
    }
}

/// The device that is meant: the option goes first, then the setup.
pub open spec fn meant_device(o: Opts, topology: Option<Topology>) -> Option<Seq<char>> {
    match o.device {
        Some(d) => Some(d@),
        None => named_device(topology),
    }
}

/// What a run begins with, or why it cannot. Without a wish, the catalog of
/// the workspace is used if there is a setup.
pub open spec fn planned(o: Opts, topology: Option<Topology>) -> Result<PlanView, Seq<char>> {
    let query = texts(o.query@);
    if first_repeat(query, 0) is Some {
        Err("Duplicate query parameter "@ + query[first_repeat(query, 0)->0])
    } else if o.key is Some {
        Err("DTLS (-k/--key) is not yet supported"@)
    } else {
        match meant_device(o, topology) {
            None => Err(
                "No device given -- pass -d <device> (e.g. -d /dev/ttyACM0 or -d termhub://host:port), or reserve an Easytest topology"@,
            ),
            Some(device) => match o.method {
                None => Err(
                    "No method given -- pass -m <method> (one of: fetch, ipatch, get, put, post, delete)"@,
                ),
                Some(method) => Ok(
                    PlanView {
                        device,
                        method: method@,
                        checksum_type: checksum_named(o.checksum_type@),
                        use_workspace: match asked_workspace(o) {
                            Some(b) => b,
                            None => topology is Some,
                        },
                    },
                ),
            },
        }
    }
}

impl Opts {
    /// Whether a catalog was asked for, and which one.
    pub fn workspace_flag(&self) -> (r: Option<bool>)
        ensures
            r == asked_workspace(*self),
    {
        if self.workspace {
            Some(true)
        } else if self.no_workspace {
            Some(false)
        } else {
            None
        }
    }

    /// Checks that no group of query parameters occurs twice.
    pub fn validate_query(&self) -> (r: Result<(), String>)
        ensures
            match r {
                Ok(_) => first_repeat(texts(self.query@), 0) is None,
                Err(e) => first_repeat(texts(self.query@), 0) matches Some(i) && e@
                    == "Duplicate query parameter "@ + texts(self.query@)[i],
            },
    {
        let ghost all = texts(self.query@);
        let mut i: usize = 0;
        while i < self.query.len()
            invariant
                i <= self.query@.len(),
                all == texts(self.query@),
                first_repeat(all, 0) == first_repeat(all, i as int),
            decreases self.query@.len() - i,
        {
            let q = self.query[i].as_str();
            assert(all[i as int] == q@);
            let mut k: usize = 0;
            while k < i
                invariant
                    k <= i < self.query@.len(),
                    all == texts(self.query@),
                    all[i as int] == q@,
                    first_repeat(all, 0) == first_repeat(all, i as int),
                    forall|j: int|
                        0 <= j < k ==> query_group(#[trigger] all[j]) != query_group(all[i as int]),
                decreases i - k,
            {
                assert(all[k as int] == self.query@[k as int]@);
                if same_group(self.query[k].as_str(), q) {
                    assert(repeats(all, i as int));
                    return Err(cat("Duplicate query parameter ", q));
                }
                k += 1;
            }
            i += 1;
        }
        Ok(())
    }

    /// What a run begins with, or why it cannot.
    pub fn plan(&self, topology: &Option<Topology>) -> (r: Result<Plan, String>)
        ensures
            match r {
                Ok(p) => planned(*self, *topology) == Ok::<PlanView, Seq<char>>(p@),
                Err(e) => planned(*self, *topology) == Err::<PlanView, Seq<char>>(e@),
            },
    {
        self.validate_query()?;
        if self.key.is_some() {
            return Err(owned("DTLS (-k/--key) is not yet supported"));
        }
        let device = match &self.device {
            Some(d) => d.clone(),
            None => match device_from(topology) {
                Some(d) => d,
                None => {
                    return Err(
                        owned(
                            "No device given -- pass -d <device> (e.g. -d /dev/ttyACM0 or -d termhub://host:port), or reserve an Easytest topology",
                        ),
                    );
                },
            },
        };
        let method = match &self.method {
            Some(m) => m.clone(),
            None => {
                return Err(
                    owned(
                        "No method given -- pass -m <method> (one of: fetch, ipatch, get, put, post, delete)",
                    ),
                );
            },
        };
        let checksum_type = if same(self.checksum_type.as_str(), "crc32") {
            ChecksumType::Crc32
        } else {
            ChecksumType::Internet
        };
        let use_workspace = match self.workspace_flag() {
            Some(b) => b,
            None => topology.is_some(),
        };
        Ok(Plan { device, method, checksum_type, use_workspace })
    }
}

} // verus!
