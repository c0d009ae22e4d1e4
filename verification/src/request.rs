//! Read requests: one per input file, with its zero-filled chunk buffers.

use vstd::prelude::*;

use crate::error::Error;
use crate::layout::{capacity_for, chunk_count, chunks_for};

verus! {

/// The bytes of a list of chunk buffers, laid end to end.
pub open spec fn flat(bufs: Seq<[u8; 512]>) -> Seq<u8> {
    bufs.map_values(|b: [u8; 512]| b@).flatten()
}

/// `n` zero bytes.
pub open spec fn zeros(n: nat) -> Seq<u8> {
    Seq::new(n, |i: int| 0u8)
}

/// Appending one buffer to a list appends its bytes to the flat bytes.
pub proof fn lemma_flat_push(bufs: Seq<[u8; 512]>, last: [u8; 512])
    ensures
        flat(bufs.push(last)) == flat(bufs) + last@,
        flat(bufs.push(last)).len() == flat(bufs).len() + 512,
{
    let inner = bufs.map_values(|b: [u8; 512]| b@);
    assert(bufs.push(last).map_values(|b: [u8; 512]| b@) =~= inner.push(last@));
    inner.lemma_flatten_push(last@);
}

/// The flat bytes of `n` buffers are `512 * n` bytes.
pub proof fn lemma_flat_len(bufs: Seq<[u8; 512]>)
    ensures
        flat(bufs).len() == bufs.len() * 512,
    decreases bufs.len(),
{
    if bufs.len() == 0 {
        assert(bufs.map_values(|b: [u8; 512]| b@) =~= Seq::<Seq<u8>>::empty());
    } else {
        let init = bufs.drop_last();
        lemma_flat_len(init);
        lemma_flat_push(init, bufs.last());
        assert(init.push(bufs.last()) =~= bufs);
    }
}

/// What a read request is to its users: the descriptor to read from and the
/// size of the file. Its buffers follow from the size: `chunks_for(fsize)`
/// of them, all zero until a read fills them.
pub struct RequestView {
    pub fd: i32,
    pub fsize: u64,
}

impl RequestView {
    /// The number of chunk buffers of the request.
    pub open spec fn chunks(self) -> nat {
        chunks_for(self.fsize as nat)
    }

    /// The flat bytes of the request's buffers before any read.
    pub open spec fn blank(self) -> Seq<u8> {
        zeros(capacity_for(self.fsize as nat))
    }
}

/// One file's pending read: its descriptor, its size, and one zero-filled
/// 512-byte buffer per chunk.
#[derive(Debug)]
pub struct IORequest {
    fd: i32,
    fsize: u64,
    chunks: usize,
    bufs: Vec<[u8; 512]>,
}

impl View for IORequest {
    type V = RequestView;

    closed spec fn view(&self) -> RequestView {
        RequestView { fd: self.fd, fsize: self.fsize }
    }
}

impl IORequest {
    #[verifier::type_invariant]
    spec fn well_formed(&self) -> bool {
        &&& self.chunks == chunks_for(self.fsize as nat)
        &&& self.bufs@.len() == self.chunks
        &&& flat(self.bufs@) == zeros(capacity_for(self.fsize as nat))
    }

    /// Lays out the read of a file of `fsize` bytes open at descriptor `fd`.
    pub fn new(fd: i32, fsize: u64) -> (r: IORequest)
        requires
            chunks_for(fsize as nat) <= usize::MAX,
        ensures
            r@ == (RequestView { fd, fsize }),
    {
        let chunks: usize = chunk_count(fsize) as usize;
        let mut bufs: Vec<[u8; 512]> = Vec::with_capacity(chunks);
        proof {
            lemma_flat_len(bufs@);
            assert(flat(bufs@) =~= zeros(0));
        }
        for done in 0..chunks
            invariant
                bufs@.len() == done,
                flat(bufs@) == zeros((done * 512) as nat),
        {
            let blank: [u8; 512] = [0u8; 512];
            proof {
                lemma_flat_push(bufs@, blank);
                assert(flat(bufs@) + blank@ =~= zeros(((done + 1) * 512) as nat));
            }
            bufs.push(blank);
        }
        IORequest { fd, fsize, chunks, bufs }
    }

    /// The descriptor that the read targets.
    pub fn fd(&self) -> (fd: i32)
        ensures
            fd == self@.fd,
    {
        self.fd
    }

    /// The size of the file in bytes.
    pub fn fsize(&self) -> (fsize: u64)
        ensures
            fsize == self@.fsize,
    {
        self.fsize
    }

    /// The number of chunks, which is the number of buffers.
    pub fn chunks(&self) -> (n: usize)
        ensures
            n == self@.chunks(),
    {
        proof {
            use_type_invariant(self);
        }
        self.chunks
    }

    /// The buffers, one per chunk, as allocated: all zero.
    pub fn bufs(&self) -> (bufs: &Vec<[u8; 512]>)
        ensures
            bufs@.len() == self@.chunks(),
            flat(bufs@) == self@.blank(),
    {
        proof {
            use_type_invariant(self);
        }
        &self.bufs
    }

    /// Gives the buffers up to whoever performs the read.
    pub fn into_bufs(self) -> (bufs: Vec<[u8; 512]>)
        ensures
            bufs@.len() == self@.chunks(),
            flat(bufs@) == self@.blank(),
    {
        proof {
            use_type_invariant(&self);
        }
        self.bufs
    }
}

/// What opening one file and asking for its size gave.
#[derive(Debug, Clone, Copy, PartialEq, Eq, Structural)]
pub enum Probe {
    /// The file is open at `fd` and holds `size` bytes.
    Opened { fd: i32, size: u64 },
    /// The file could not be opened.
    OpenFailed,
    /// The file is open, but its size could not be determined.
    MetadataFailed,
}

impl Probe {
    /// The error that this probe stands for when it is the probe of the file
    /// at position `index` and did not succeed.
    pub open spec fn failure(self, index: usize) -> Error {
        match self {
            Probe::MetadataFailed => Error::Metadata { index },
            _ => Error::Open { index },
        }
    }

    /// This probe succeeded, and `request` is the request that it leads to.
    pub open spec fn opens(self, request: RequestView) -> bool {
        self matches Probe::Opened { fd, size } && request == (RequestView { fd, fsize: size })
    }
}

/// `k` is the position of the first probe that did not succeed.
pub open spec fn first_failure(probes: Seq<Probe>, k: int) -> bool {
    &&& 0 <= k < probes.len()
    &&& !(probes[k] is Opened)
    &&& forall|j: int| 0 <= j < k ==> probes[j] is Opened
}

/// Builds the read requests of a file list from the probes of its files, in
/// the order of the list.
///
/// One probe that did not succeed fails the whole list, with the error of the
/// first such probe: no request is handed out, so nothing is read or printed.
pub fn raw_fds(probes: &Vec<Probe>) -> (r: Result<Vec<IORequest>, Error>)
    requires
        forall|i: int|
            0 <= i < probes@.len() ==> (#[trigger] probes@[i] matches Probe::Opened { size, .. }
                ==> chunks_for(size as nat) <= usize::MAX),
    ensures
        match r {
            Ok(requests) => {
                &&& requests@.len() == probes@.len()
                &&& forall|i: int|
                    0 <= i < probes@.len() ==> (#[trigger] probes@[i]).opens(requests@[i]@)
            },
            Err(e) => exists|k: int|
                first_failure(probes@, k) && e == (#[trigger] probes@[k]).failure(k as usize),
        },
{
    let mut requests: Vec<IORequest> = Vec::with_capacity(probes.len());
    for index in 0..probes.len()
        invariant
            requests@.len() == index,
            forall|i: int|
                0 <= i < probes@.len() ==> (#[trigger] probes@[i] matches Probe::Opened { size, .. }
                    ==> chunks_for(size as nat) <= usize::MAX),
            forall|i: int|
                0 <= i < index ==> (#[trigger] probes@[i]).opens(requests@[i]@),
    {
        match probes[index] {
            Probe::Opened { fd, size } => {
                requests.push(IORequest::new(fd, size));
            },
            Probe::OpenFailed => {
                proof {
                    assert(first_failure(probes@, index as int));
                }
                return Err(Error::Open { index });
            },
            Probe::MetadataFailed => {
                proof {
                    assert(first_failure(probes@, index as int));
                }
                return Err(Error::Metadata { index });
            },
        }
    }
    Ok(requests)
}

} // verus!
