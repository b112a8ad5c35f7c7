//! Entry points: the indexed reader for random access by region, and the
//! sequential reader.
use vstd::prelude::*;
use crate::bins::MAX_POSITION;
use crate::codec::{copy_range, decode_records, decoded_from, le_u32};
use crate::container::{all_bytes, chunks_bytes, Block, Container, CONTAINER_MAGIC};
use crate::index::{chunks_cover, index_parse, take_u32, Chunk, Index, INDEX_MAGIC};
use crate::record::{all_wf, Corruption, Error, InputError, Record, MAX_COORD};
use crate::region::RegionViewer;

verus! {

/// A reference's name stored in `l` bytes at `at`, without its trailing zero.
pub open spec fn name_bytes(b: Seq<u8>, at: int, l: int) -> Seq<u8> {
    if l > 0 {
        b.subrange(at, at + l - 1)
    } else {
        Seq::empty()
    }
}

/// Names, lengths and end position of `n` dictionary entries from `p`; the
/// error is `Truncated` when the bytes end early and `BadSize` when a length
/// exceeds the format's limit.
pub open spec fn refs_parse(b: Seq<u8>, p: int, n: nat) -> Result<(Seq<Seq<u8>>, Seq<u32>, int), Error>
    decreases n,
{
    if n == 0 {
        Ok((Seq::empty(), Seq::empty(), p))
    } else if p < 0 || b.len() - p < 4 {
        Err(Error::Truncated)
    } else {
        let l = le_u32(b, p);
        if b.len() - p - 4 < l || b.len() - (p + 4 + l) < 4 {
            Err(Error::Truncated)
        } else if le_u32(b, p + 4 + l) > MAX_COORD {
            Err(Error::Corrupted(Corruption::BadSize))
        } else {
            match refs_parse(b, p + 8 + l, (n - 1) as nat) {
                Ok(t) => Ok(
                    (
                        seq![name_bytes(b, p + 4, l)] + t.0,
                        seq![le_u32(b, p + 4 + l) as u32] + t.1,
                        t.2,
                    ),
                ),
                Err(e) => Err(e),
            }
        }
    }
}

/// The header that the decompressed stream `b` begins with: reference names,
/// lengths, and where the first record starts; or why it cannot be read.
pub open spec fn header_parse(b: Seq<u8>) -> Result<(Seq<Seq<u8>>, Seq<u32>, int), Error> {
    if b.len() < 4 {
        Err(Error::Truncated)
    } else if b.subrange(0, 4) != CONTAINER_MAGIC@ {
        Err(Error::Corrupted(Corruption::InvalidMagic))
    } else if b.len() < 8 {
        Err(Error::Truncated)
    } else {
        let lt = le_u32(b, 4);
        if b.len() - 8 < lt || b.len() - (8 + lt) < 4 {
            Err(Error::Truncated)
        } else {
            refs_parse(b, 12 + lt, le_u32(b, 8 + lt) as nat)
        }
    }
}

spec fn prepend(ns: Seq<Seq<u8>>, ls: Seq<u32>, r: Result<(Seq<Seq<u8>>, Seq<u32>, int), Error>) -> Result<
    (Seq<Seq<u8>>, Seq<u32>, int),
    Error,
> {
    match r {
        Ok(t) => Ok((ns + t.0, ls + t.1, t.2)),
        Err(e) => Err(e),
    }
}

proof fn lemma_prepend_step(
    ns: Seq<Seq<u8>>,
    ls: Seq<u32>,
    name: Seq<u8>,
    len: u32,
    r: Result<(Seq<Seq<u8>>, Seq<u32>, int), Error>,
)
    ensures
        prepend(ns.push(name), ls.push(len), r) == prepend(
            ns,
            ls,
            match r {
                Ok(t) => Ok((seq![name] + t.0, seq![len] + t.1, t.2)),
                Err(e) => Err(e),
            },
        ),
{
    if let Ok(t) = r {
        assert(ns.push(name) + t.0 =~= ns + (seq![name] + t.0));
        assert(ls.push(len) + t.1 =~= ls + (seq![len] + t.1));
    }
}

/// The container header: its text and its reference dictionary.
#[derive(Debug)]
pub struct Header {
    text: Vec<u8>,
    names: Vec<Vec<u8>>,
    lengths: Vec<u32>,
}

impl Header {
    pub closed spec fn lengths_spec(&self) -> Seq<u32> {
        self.lengths@
    }

    pub closed spec fn names_spec(&self) -> Seq<Seq<u8>> {
        self.names@.map_values(|v: Vec<u8>| v@)
    }

    pub closed spec fn wf(&self) -> bool {
        &&& self.names@.len() == self.lengths@.len()
        &&& forall|k: int| 0 <= k < self.lengths@.len() ==> #[trigger] self.lengths@[k] <= MAX_COORD
    }

    /// A header with the given reference names and lengths.
    pub fn new(text: Vec<u8>, names: Vec<Vec<u8>>, lengths: Vec<u32>) -> (r: Header)
        requires
            names@.len() == lengths@.len(),
            forall|k: int| 0 <= k < lengths@.len() ==> #[trigger] lengths@[k] <= MAX_COORD,
        ensures
            r.wf(),
            r.lengths_spec() == lengths@,
    {
        Header { text, names, lengths }
    }

    /// Number of references.
    pub fn n_references(&self) -> (r: usize)
        ensures
            r == self.lengths_spec().len(),
    {
        self.lengths.len()
    }

    /// Length of reference `ref_id`, if the header declares it.
    pub fn reference_len(&self, ref_id: usize) -> (r: Option<u32>)
        ensures
            ref_id < self.lengths_spec().len() ==> r == Some(self.lengths_spec()[ref_id as int]),
            ref_id >= self.lengths_spec().len() ==> r is None,
    {
        if ref_id < self.lengths.len() {
            Some(self.lengths[ref_id])
        } else {
            None
        }
    }

    /// Name of reference `ref_id`, if the header declares it.
    pub fn reference_name(&self, ref_id: usize) -> (r: Option<&Vec<u8>>)
        requires
            self.wf(),
        ensures
            ref_id < self.lengths_spec().len() <==> r is Some,
    {
        if ref_id < self.names.len() {
            Some(&self.names[ref_id])
        } else {
            None
        }
    }

    /// The header's text section.
    pub fn text(&self) -> &Vec<u8> {
        &self.text
    }

    /// Reads the header at the start of the decompressed stream, and returns
    /// it with the position of the first record.
    pub fn from_bytes(b: &Vec<u8>) -> (r: Result<(Header, usize), Error>)
        ensures
            b@.len() < 4 ==> r == Err::<(Header, usize), Error>(Error::Truncated),
            b@.len() >= 4 && b@.subrange(0, 4) != CONTAINER_MAGIC@ ==> r == Err::<
                (Header, usize),
                Error,
            >(Error::Corrupted(Corruption::InvalidMagic)),
            r matches Ok((h, p)) ==> {
                &&& h.wf()
                &&& p <= b@.len()
                &&& b@.subrange(0, 4) == CONTAINER_MAGIC@
                &&& 12 + le_u32(b@, 4) <= b@.len()
                &&& h.lengths_spec().len() == le_u32(b@, 8 + le_u32(b@, 4))
            },
            match header_parse(b@) {
                Err(e) => r == Err::<(Header, usize), Error>(e),
                Ok(t) => r matches Ok((h, p)) && h.names_spec() == t.0 && h.lengths_spec() == t.1
                    && p == t.2,
            },
    {
        if b.len() < 4 {
            return Err(Error::Truncated);
        }
        let magic = CONTAINER_MAGIC;
        if b[0] != magic[0] || b[1] != magic[1] || b[2] != magic[2] || b[3] != magic[3] {
            proof {
                assert(b@.subrange(0, 4)[0] == b@[0]);
            }
            return Err(Error::Corrupted(Corruption::InvalidMagic));
        }
        assert(b@.subrange(0, 4) =~= CONTAINER_MAGIC@);
        let mut p: usize = 4;
        let l_text = take_u32(b, &mut p)? as usize;
        if b.len() - p < l_text {
            return Err(Error::Truncated);
        }
        let text = copy_range(b, p, p + l_text);
        p = p + l_text;
        let ghost at = p;
        let n_ref = take_u32(b, &mut p)?;
        assert(at == 8 + le_u32(b@, 4));
        let mut names: Vec<Vec<u8>> = Vec::new();
        let mut lengths: Vec<u32> = Vec::new();
        proof {
            let r0 = refs_parse(b@, p as int, n_ref as nat);
            if let Ok(t) = r0 {
                assert(Seq::<Seq<u8>>::empty() + t.0 =~= t.0);
                assert(Seq::<u32>::empty() + t.1 =~= t.1);
            }
            assert(names@.map_values(|v: Vec<u8>| v@) =~= Seq::<Seq<u8>>::empty());
        }
        let mut i: u32 = 0;
        while i < n_ref
            invariant
                p <= b@.len(),
                b@.subrange(0, 4) == CONTAINER_MAGIC@,
                i <= n_ref,
                n_ref == le_u32(b@, 8 + le_u32(b@, 4)),
                12 + le_u32(b@, 4) <= b@.len(),
                names@.len() == lengths@.len(),
                lengths@.len() == i,
                forall|k: int| 0 <= k < lengths@.len() ==> #[trigger] lengths@[k] <= MAX_COORD,
                header_parse(b@) == prepend(
                    names@.map_values(|v: Vec<u8>| v@),
                    lengths@,
                    refs_parse(b@, p as int, (n_ref - i) as nat),
                ),
            decreases n_ref - i,
        {
            let ghost p0 = p;
            let ghost names0 = names@.map_values(|v: Vec<u8>| v@);
            let ghost lengths0 = lengths@;
            let l_name = take_u32(b, &mut p)? as usize;
            if b.len() - p < l_name {
                return Err(Error::Truncated);
            }
            let name = if l_name > 0 {
                copy_range(b, p, p + l_name - 1)
            } else {
                Vec::new()
            };
            p = p + l_name;
            let len = take_u32(b, &mut p)?;
            if len > MAX_COORD {
                return Err(Error::Corrupted(Corruption::BadSize));
            }
            let ghost nv = name@;
            proof {
                assert(nv == name_bytes(b@, p0 + 4, l_name as int));
                lemma_prepend_step(names0, lengths0, nv, len, refs_parse(b@, p as int, (n_ref - i - 1) as nat));
            }
            names.push(name);
            lengths.push(len);
            assert(names@.map_values(|v: Vec<u8>| v@) =~= names0.push(nv));
            i = i + 1;
        }
        Ok((Header { text, names, lengths }, p))
    }
}

/// What to do when the index is older than the container.
#[derive(Clone, Copy, Debug, PartialEq, Eq, Structural)]
pub enum ModificationTime {
    /// Refuse to open the reader.
    Error,
    /// Go on silently.
    Ignore,
    /// Go on, and report a warning.
    Warn,
}

/// The outcome of the modification-time check.
#[derive(Clone, Copy, Debug, PartialEq, Eq, Structural)]
pub enum TimeVerdict {
    Proceed,
    ProceedWithWarning,
    Refuse,
}

impl ModificationTime {
    /// The warning policy.
    pub fn warn() -> (r: ModificationTime)
        ensures
            r == ModificationTime::Warn,
    {
        ModificationTime::Warn
    }

    /// The verdict, given whether the index was modified before the container
    /// (false where either time is unknown).
    pub fn check(&self, index_older: bool) -> (r: TimeVerdict)
        ensures
            !index_older ==> r == TimeVerdict::Proceed,
            index_older && *self == ModificationTime::Ignore ==> r == TimeVerdict::Proceed,
            index_older && *self == ModificationTime::Error ==> r == TimeVerdict::Refuse,
            index_older && *self == ModificationTime::Warn ==> r == TimeVerdict::ProceedWithWarning,
    {
        if !index_older {
            return TimeVerdict::Proceed;
        }
        match self {
            ModificationTime::Ignore => TimeVerdict::Proceed,
            ModificationTime::Error => TimeVerdict::Refuse,
            ModificationTime::Warn => TimeVerdict::ProceedWithWarning,
        }
    }
}

/// Options for opening an indexed reader.
#[derive(Debug)]
pub struct IndexedReaderBuilder {
    cache_capacity: Option<usize>,
    bai_path: Option<String>,
    modification_time: ModificationTime,
}

impl IndexedReaderBuilder {
    pub closed spec fn cache_capacity_spec(&self) -> Option<usize> {
        self.cache_capacity
    }

    pub closed spec fn modification_time_spec(&self) -> ModificationTime {
        self.modification_time
    }

    pub closed spec fn has_bai_path(&self) -> bool {
        self.bai_path is Some
    }

    pub closed spec fn bai_path_spec(&self) -> Option<String> {
        self.bai_path
    }

    /// No index path, the default cache, and refusal of an older index.
    pub fn new() -> (r: IndexedReaderBuilder)
        ensures
            r.cache_capacity_spec() is None,
            !r.has_bai_path(),
            r.modification_time_spec() == ModificationTime::Error,
    {
        IndexedReaderBuilder { cache_capacity: None, bai_path: None, modification_time: ModificationTime::Error }
    }

    /// Sets the index path, replacing any earlier one.
    pub fn bai_path(self, path: String) -> (r: IndexedReaderBuilder)
        ensures
            r.has_bai_path(),
            r.bai_path_spec() == Some(path),
            r.cache_capacity_spec() == self.cache_capacity_spec(),
            r.modification_time_spec() == self.modification_time_spec(),
    {
        IndexedReaderBuilder { bai_path: Some(path), ..self }
    }

    /// The index path, if one was set.
    pub fn bai_path_value(&self) -> (r: Option<&String>)
        ensures
            r is Some <==> self.has_bai_path(),
            r matches Some(p) ==> self.bai_path_spec() == Some(*p),
    {
        match &self.bai_path {
            Some(p) => Some(p),
            None => None,
        }
    }

    /// Sets the policy for an index older than the container.
    pub fn modification_time(self, modification_time: ModificationTime) -> (r: IndexedReaderBuilder)
        ensures
            r.modification_time_spec() == modification_time,
            r.cache_capacity_spec() == self.cache_capacity_spec(),
            r.has_bai_path() == self.has_bai_path(),
            r.bai_path_spec() == self.bai_path_spec(),
    {
        IndexedReaderBuilder { modification_time, ..self }
    }

    /// The policy for an index older than the container.
    pub fn modification_time_value(&self) -> (r: ModificationTime)
        ensures
            r == self.modification_time_spec(),
    {
        self.modification_time
    }

    /// Sets the block-cache capacity, in blocks.
    pub fn cache_capacity(self, cache_capacity: usize) -> (r: IndexedReaderBuilder)
        requires
            cache_capacity > 0,
        ensures
            r.cache_capacity_spec() == Some(cache_capacity),
            r.modification_time_spec() == self.modification_time_spec(),
            r.has_bai_path() == self.has_bai_path(),
            r.bai_path_spec() == self.bai_path_spec(),
    {
        IndexedReaderBuilder { cache_capacity: Some(cache_capacity), ..self }
    }

    /// The block-cache capacity: the one set, or 1000 blocks.
    pub fn cache_capacity_value(&self) -> (r: usize)
        ensures
            self.cache_capacity_spec() matches Some(c) ==> r == c,
            self.cache_capacity_spec() is None ==> r == 1000,
    {
        match self.cache_capacity {
            Some(c) => c,
            None => 1000,
        }
    }

    /// Opens an indexed reader over an inflated container and the bytes of
    /// its index.
    pub fn from_streams(&self, container: Container, index_bytes: &Vec<u8>) -> (r: Result<IndexedReader, Error>)
        requires
            container.wf(),
        ensures
            r matches Ok(reader) ==> {
                &&& reader.wf()
                &&& reader.blocks_spec() == container.blocks_spec()
                &&& header_parse(all_bytes(container.blocks_spec())) matches Ok(t)
                    && reader.header_spec().names_spec() == t.0
                    && reader.header_spec().lengths_spec() == t.1
            },
            index_parse(index_bytes@) is Ok ==> (header_parse(all_bytes(container.blocks_spec())) matches Err(e)
                ==> r == Err::<IndexedReader, Error>(e)),
            index_parse(index_bytes@) matches Err(e) ==> r == Err::<IndexedReader, Error>(e),
            index_parse(index_bytes@) is Ok && header_parse(all_bytes(container.blocks_spec()))
                is Ok ==> r is Ok,
            r matches Ok(reader) ==> index_parse(index_bytes@) matches Ok(t)
                && reader.index_spec().view_spec() == t.0,
            index_bytes@.len() < 4 ==> r == Err::<IndexedReader, Error>(Error::Truncated),
            index_bytes@.len() >= 4 && index_bytes@.subrange(0, 4) != INDEX_MAGIC@ ==> r == Err::<
                IndexedReader,
                Error,
            >(Error::Corrupted(Corruption::InvalidMagic)),
    {
        let index = Index::from_bytes(index_bytes)?;
        IndexedReader::new(container, index)
    }
}

/// Random access to the records of a container by region.
#[derive(Debug)]
pub struct IndexedReader {
    container: Container,
    header: Header,
    index: Index,
}

impl IndexedReader {
    pub closed spec fn wf(&self) -> bool {
        &&& self.container.wf()
        &&& self.header.wf()
        &&& self.index.wf()
    }

    pub closed spec fn header_spec(&self) -> Header {
        self.header
    }

    pub closed spec fn index_spec(&self) -> Index {
        self.index
    }

    pub closed spec fn blocks_spec(&self) -> Seq<Block> {
        self.container.blocks_spec()
    }

    /// A builder with the default options.
    pub fn build() -> (r: IndexedReaderBuilder)
        ensures
            r.cache_capacity_spec() is None,
            !r.has_bai_path(),
            r.modification_time_spec() == ModificationTime::Error,
    {
        IndexedReaderBuilder::new()
    }

    /// A reader over a container and its parsed index; reads the header.
    pub fn new(container: Container, index: Index) -> (r: Result<IndexedReader, Error>)
        requires
            container.wf(),
            index.wf(),
        ensures
            r matches Ok(reader) ==> {
                let b = all_bytes(container.blocks_spec());
                &&& reader.wf()
                &&& b.subrange(0, 4) == CONTAINER_MAGIC@
                &&& reader.header_spec().lengths_spec().len() == le_u32(b, 8 + le_u32(b, 4))
                &&& reader.index_spec() == index
                &&& reader.blocks_spec() == container.blocks_spec()
            },
            match header_parse(all_bytes(container.blocks_spec())) {
                Err(e) => r == Err::<IndexedReader, Error>(e),
                Ok(t) => r matches Ok(reader) && reader.header_spec().names_spec() == t.0
                    && reader.header_spec().lengths_spec() == t.1,
            },
    {
        let bytes = container.read_all();
        let (header, _) = Header::from_bytes(&bytes)?;
        Ok(IndexedReader { container, header, index })
    }

    /// The container's header.
    pub fn header(&self) -> (r: &Header)
        ensures
            *r == self.header_spec(),
    {
        &self.header
    }

    /// The records of reference `ref_id` (0-based) that intersect `[start, end)`.
    pub fn fetch(&mut self, ref_id: u32, start: u32, end: u32) -> (r: Result<RegionViewer, Error>)
        requires
            old(self).wf(),
        ensures
            final(self).wf(),
            *final(self) == *old(self),
            fetch_error(old(self).header_spec().lengths_spec(), ref_id, start, end) matches Some(e)
                ==> r == Err::<RegionViewer, Error>(e),
            fetch_error(old(self).header_spec().lengths_spec(), ref_id, start, end) is None ==> (
            r matches Ok(v) && v.wf() && v.start_spec() == start && v.end_spec() == end && exists|
                cs: Seq<Chunk>,
            |
                fetch_plan(old(self).index_spec(), ref_id, start, end, cs) && match chunks_bytes(
                    old(self).blocks_spec(),
                    cs,
                ) {
                    Some(bytes) => decoded_from(bytes, 0, v.items()),
                    None => v.items() == seq![Err::<Record, Error>(Error::Truncated)],
                }),
            r matches Ok(v) ==> forall|k: int|
                0 <= k < v.items().len() ==> (#[trigger] v.items()[k] matches Ok(_)
                    ==> v.verdicts()[k]),
    {
        self.fetch_by(ref_id, start, end, |_r: &Record| -> (b: bool) ensures b { true })
    }

    /// The records of reference `ref_id` (0-based) that intersect
    /// `[start, end)` and for which `predicate` holds.
    pub fn fetch_by<F: Fn(&Record) -> bool>(&mut self, ref_id: u32, start: u32, end: u32, predicate: F) -> (r: Result<RegionViewer, Error>)
        requires
            old(self).wf(),
            forall|rec: &Record| #[trigger] predicate.requires((rec,)),
        ensures
            final(self).wf(),
            *final(self) == *old(self),
            fetch_error(old(self).header_spec().lengths_spec(), ref_id, start, end) matches Some(e)
                ==> r == Err::<RegionViewer, Error>(e),
            fetch_error(old(self).header_spec().lengths_spec(), ref_id, start, end) is None ==> (
            r matches Ok(v) && v.wf() && v.start_spec() == start && v.end_spec() == end && exists|
                cs: Seq<Chunk>,
            |
                fetch_plan(old(self).index_spec(), ref_id, start, end, cs) && match chunks_bytes(
                    old(self).blocks_spec(),
                    cs,
                ) {
                    Some(bytes) => decoded_from(bytes, 0, v.items()),
                    None => v.items() == seq![Err::<Record, Error>(Error::Truncated)],
                }),
            r matches Ok(v) ==> forall|k: int|
                0 <= k < v.items().len() ==> (#[trigger] v.items()[k] matches Ok(rec) ==> if rec.is_mapped_spec()
                    && rec.start < end {
                    predicate.ensures((&rec,), v.verdicts()[k])
                } else {
                    v.verdicts()[k]
                }),
    {
        if start > end {
            return Err(Error::InvalidInput(InputError::StartAfterEnd));
        }
        let len = match self.header.reference_len(ref_id as usize) {
            None => {
                return Err(Error::InvalidInput(InputError::ReferenceOutOfBounds));
            },
            Some(len) => len,
        };
        if len < end {
            return Err(Error::InvalidInput(InputError::EndAfterReferenceLength));
        }
        assert(self.header.lengths@[ref_id as int] <= MAX_COORD);
        let chunks: Vec<Chunk> = if start < end && start < MAX_POSITION {
            let lookup_end = if end > MAX_POSITION {
                MAX_POSITION
            } else {
                end
            };
            self.index.fetch_chunks(ref_id, start, lookup_end)
        } else {
            Vec::new()
        };
        let ghost cs = chunks@;
        assert(fetch_plan(self.index, ref_id, start, end, cs));
        let records = match self.container.read_chunks(&chunks) {
            Ok(bytes) => decode_records(&bytes, 0),
            Err(e) => {
                let mut v: Vec<Result<Record, Error>> = Vec::new();
                v.push(Err(e));
                assert(v@ =~= seq![Err::<Record, Error>(Error::Truncated)]);
                v
            },
        };
        let v = RegionViewer::with_predicate(records, start as i32, end as i32, predicate);
        assert(fetch_plan(self.index_spec(), ref_id, start, end, cs));
        Ok(v)
    }
}

/// The chunks a fetch reads: those that the index gives for the interval,
/// looked up within the positions the binning can place; none for an empty
/// interval or one past them.
pub open spec fn fetch_plan(idx: Index, ref_id: u32, start: u32, end: u32, cs: Seq<Chunk>) -> bool {
    if start < end && start < MAX_POSITION {
        chunks_cover(idx, ref_id, start, if end > MAX_POSITION { MAX_POSITION } else { end }, cs)
    } else {
        cs.len() == 0
    }
}

/// The argument error of a fetch, if any: `start > end`, an unknown reference,
/// or an end past the reference's length, checked in that order.
pub open spec fn fetch_error(lengths: Seq<u32>, ref_id: u32, start: u32, end: u32) -> Option<Error> {
    if start > end {
        Some(Error::InvalidInput(InputError::StartAfterEnd))
    } else if ref_id >= lengths.len() {
        Some(Error::InvalidInput(InputError::ReferenceOutOfBounds))
    } else if lengths[ref_id as int] < end {
        Some(Error::InvalidInput(InputError::EndAfterReferenceLength))
    } else {
        None
    }
}

/// Reads all records of a container in order.
#[derive(Debug)]
pub struct Reader {
    header: Header,
    /// Records still to be read, the next one last.
    pending: Vec<Result<Record, Error>>,
}

impl Reader {
    /// Records and errors still to be read, in stream order.
    pub closed spec fn items(&self) -> Seq<Result<Record, Error>> {
        self.pending@.reverse()
    }

    pub closed spec fn header_spec(&self) -> Header {
        self.header
    }

    /// A reader over an inflated container; reads the header.
    pub fn from_stream(container: Container) -> (r: Result<Reader, Error>)
        ensures
            r matches Ok(reader) ==> {
                let b = all_bytes(container.blocks_spec());
                &&& all_wf(reader.items())
                &&& reader.header_spec().wf()
                &&& b.subrange(0, 4) == CONTAINER_MAGIC@
                &&& reader.header_spec().lengths_spec().len() == le_u32(b, 8 + le_u32(b, 4))
            },
            match header_parse(all_bytes(container.blocks_spec())) {
                Err(e) => r == Err::<Reader, Error>(e),
                Ok(t) => r matches Ok(reader) && reader.header_spec().names_spec() == t.0
                    && reader.header_spec().lengths_spec() == t.1 && decoded_from(
                    all_bytes(container.blocks_spec()),
                    t.2,
                    reader.items(),
                ),
            },
    {
        let bytes = container.read_all();
        let (header, p) = Header::from_bytes(&bytes)?;
        let mut input = decode_records(&bytes, p);
        let ghost items = input@;
        let mut pending: Vec<Result<Record, Error>> = Vec::new();
        while input.len() > 0
            invariant
                input@ + pending@.reverse() == items,
                all_wf(items),
                decoded_from(bytes@, p as int, items),
            decreases input@.len(),
        {
            let item = input.pop().unwrap();
            pending.push(item);
            proof {
                assert(input@ + pending@.reverse() =~= items);
            }
        }
        assert(pending@.reverse() =~= items);
        assert(decoded_from(bytes@, p as int, items));
        Ok(Reader { header, pending })
    }

    /// The container's header.
    pub fn header(&self) -> (r: &Header)
        ensures
            *r == self.header_spec(),
    {
        &self.header
    }

    /// Reads the next record into `record`; `NoMoreRecords` at the end.
    pub fn read_into(&mut self, record: &mut Record) -> (r: Result<(), Error>)
        ensures
            old(self).items().len() == 0 ==> r == Err::<(), Error>(Error::NoMoreRecords),
            old(self).items().len() > 0 ==> final(self).items() == old(self).items().skip(1),
            old(self).items().len() > 0 ==> match old(self).items()[0] {
                Ok(rec) => r is Ok && *final(record) == rec,
                Err(e) => r == Err::<(), Error>(e),
            },
    {
        let ghost before = self.pending@;
        match self.pending.pop() {
            None => Err(Error::NoMoreRecords),
            Some(item) => {
                proof {
                    assert(before.reverse()[0] == before[before.len() - 1]);
                    assert(self.pending@.reverse() =~= before.reverse().skip(1));
                }
                match item {
                    Ok(rec) => {
                        *record = rec;
                        Ok(())
                    },
                    Err(e) => Err(e),
                }
            },
        }
    }

    /// The next record, `None` at the end.
    pub fn next(&mut self) -> (r: Option<Result<Record, Error>>)
        ensures
            old(self).items().len() == 0 ==> r is None,
            old(self).items().len() > 0 ==> final(self).items() == old(self).items().skip(1),
            old(self).items().len() > 0 ==> match old(self).items()[0] {
                Ok(rec) => r == Some(Ok::<Record, Error>(rec)),
                Err(Error::NoMoreRecords) => r is None,
                Err(e) => r == Some(Err::<Record, Error>(e)),
            },
    {
        let mut record = Record::new();
        match self.read_into(&mut record) {
            Ok(()) => Some(Ok(record)),
            Err(Error::NoMoreRecords) => None,
            Err(e) => Some(Err(e)),
        }
    }
}

} // verus!
