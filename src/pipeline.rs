use vstd::prelude::*;
use vstd::string::*;
use crate::ingestion::{file_stem, file_stem_of, extension_of, mime_for, FileTypeDetector};
use crate::search::{after_add, after_remove, has_id, str_eq, Document, SearchEngine};

verus! {

/// Which document a source path holds, and the checksum of the bytes it was made from.
#[derive(Debug, Clone)]
pub struct PathEntry {
    pub path: String,
    pub document_id: String,
    pub checksum: String,
}

/// What ingesting a file came to.
#[derive(Debug, Clone)]
pub enum IngestOutcome {
    /// The document was indexed under this identifier.
    Indexed(String),
    /// The path already held a document made from the same bytes; nothing changed.
    Unchanged(String),
}

/// The position of the entry for `path`, if any.
pub open spec fn entry_for(es: Seq<PathEntry>, path: Seq<char>) -> Option<int>
    decreases es.len(),
{
    if es.len() == 0 {
        None
    } else if es.last().path@ == path {
        Some(es.len() - 1)
    } else {
        entry_for(es.drop_last(), path)
    }
}

/// The document that ingesting a decoded file makes: identified by the digest of its path
/// and the checksum of its bytes, titled by the file's stem, and described by its MIME type and
/// path.
pub fn document_for(path: &str, path_digest: &str, checksum: &str, content: String, modified_at: i64, size: u64) -> (r: Document)
    ensures
        r.id@ == path_digest@ + "-"@ + checksum@,
        r.title@ == file_stem_of(path@),
        r.content == content,
        r.created_at == modified_at,
        r.size == size,
        r.metadata@.len() == 2,
        r.metadata@[0].0@ == "content_type"@ && r.metadata@[0].1@ == mime_for(extension_of(path@)),
        r.metadata@[1].0@ == "file_path"@ && r.metadata@[1].1@ == path@,
{
    let mut id = String::from_str(path_digest);
    id.append("-");
    id.append(checksum);
    let metadata: Vec<(String, String)> = vec![
        (String::from_str("content_type"), FileTypeDetector::detect_mime_type(path)),
        (String::from_str("file_path"), String::from_str(path)),
    ];
    Document { id, title: file_stem(path), content, created_at: modified_at, size, metadata }
}

/// The index together with the paths its documents came from; re-ingesting a path replaces
/// its document, and unchanged bytes leave everything as it was.
pub struct DocumentStore {
    engine: SearchEngine,
    entries: Vec<PathEntry>,
}

impl DocumentStore {
    pub closed spec fn docs(&self) -> Seq<Document> {
        self.engine.docs()
    }

    pub closed spec fn entries(&self) -> Seq<PathEntry> {
        self.entries@
    }

    pub closed spec fn wf(&self) -> bool {
        self.engine.wf()
    }

    pub fn new() -> (r: DocumentStore)
        ensures
            r.wf(),
            r.docs().len() == 0,
            r.entries().len() == 0,
    {
        DocumentStore { engine: SearchEngine::new(), entries: Vec::new() }
    }

    /// The index, for searching.
    pub fn engine(&self) -> (r: &SearchEngine)
        requires
            self.wf(),
        ensures
            r.wf(),
            r.docs() == self.docs(),
    {
        &self.engine
    }

    fn find_entry(&self, path: &str) -> (r: Option<usize>)
        ensures
            r matches Some(k) ==> entry_for(self.entries(), path@) == Some(k as int) && k < self.entries().len(),
            r is None ==> entry_for(self.entries(), path@) is None,
    {
        let mut i: usize = self.entries.len();
        let ghost es = self.entries@;
        assert(es.subrange(0, es.len() as int) =~= es);
        while i > 0 && !str_eq(self.entries[i - 1].path.as_str(), path)
            invariant
                i <= self.entries.len(),
                es == self.entries@,
                entry_for(es, path@) == entry_for(es.subrange(0, i as int), path@),
            decreases i,
        {
            let ghost pre = es.subrange(0, i as int);
            assert(pre.drop_last() =~= es.subrange(0, i - 1));
            i = i - 1;
        }
        if i > 0 {
            let ghost pre = es.subrange(0, i as int);
            assert(pre.last() == es[i - 1]);
            Some(i - 1)
        } else {
            assert(es.subrange(0, 0) =~= Seq::<PathEntry>::empty());
            None
        }
    }

    /// Whether the path already holds a document made from bytes with this checksum, so that
    /// the file need not be decoded again.
    pub fn is_unchanged(&self, path: &str, checksum: &str) -> (r: bool)
        ensures
            r == (entry_for(self.entries(), path@) matches Some(k) && self.entries()[k].checksum@ == checksum@),
    {
        match self.find_entry(path) {
            Some(k) => str_eq(self.entries[k].checksum.as_str(), checksum),
            None => false,
        }
    }

    /// Ingests a decoded file: when the path already holds a document made from bytes with the
    /// same checksum nothing changes; otherwise the path's old document, if any, leaves the
    /// index and `document` enters it.
    pub fn ingest(&mut self, path: String, checksum: String, document: Document) -> (r: IngestOutcome)
        requires
            old(self).wf(),
        ensures
            final(self).wf(),
            ({
                let e = entry_for(old(self).entries(), path@);
                let k = e->0;
                if e is Some && old(self).entries()[k].checksum@ == checksum@ {
                    &&& r == IngestOutcome::Unchanged(old(self).entries()[k].document_id)
                    &&& final(self).docs() == old(self).docs()
                    &&& final(self).entries() == old(self).entries()
                } else if e is Some {
                    &&& r == IngestOutcome::Indexed(document.id)
                    &&& final(self).docs() == after_add(
                        after_remove(old(self).docs(), old(self).entries()[k].document_id@),
                        document,
                    )
                    &&& final(self).entries() == old(self).entries().update(
                        k,
                        PathEntry { path, document_id: document.id, checksum },
                    )
                } else {
                    &&& r == IngestOutcome::Indexed(document.id)
                    &&& final(self).docs() == after_add(old(self).docs(), document)
                    &&& final(self).entries() == old(self).entries().push(
                        PathEntry { path, document_id: document.id, checksum },
                    )
                }
            }),
    {
        match self.find_entry(path.as_str()) {
            Some(k) => {
                if str_eq(self.entries[k].checksum.as_str(), checksum.as_str()) {
                    return IngestOutcome::Unchanged(self.entries[k].document_id.clone());
                }
                let old_id = self.entries[k].document_id.clone();
                let _ = self.engine.remove_document(old_id.as_str());
                let id = document.id.clone();
                let entry = PathEntry { path, document_id: document.id.clone(), checksum };
                let _ = self.engine.add_document(document);
                self.entries.set(k, entry);
                IngestOutcome::Indexed(id)
            },
            None => {
                let id = document.id.clone();
                let entry = PathEntry { path, document_id: document.id.clone(), checksum };
                let _ = self.engine.add_document(document);
                self.entries.push(entry);
                IngestOutcome::Indexed(id)
            },
        }
    }

    /// Removes the document that a path holds, with all its postings; false when the path holds
    /// none.
    pub fn delete_path(&mut self, path: &str) -> (r: bool)
        requires
            old(self).wf(),
        ensures
            final(self).wf(),
            r == (entry_for(old(self).entries(), path@) is Some),
            match entry_for(old(self).entries(), path@) {
                Some(k) => {
                    &&& final(self).docs() == after_remove(old(self).docs(), old(self).entries()[k].document_id@)
                    &&& final(self).entries() == old(self).entries().remove(k)
                    &&& !has_id(final(self).docs(), old(self).entries()[k].document_id@)
                },
                None => {
                    &&& final(self).docs() == old(self).docs()
                    &&& final(self).entries() == old(self).entries()
                },
            },
    {
        match self.find_entry(path) {
            Some(k) => {
                let entry = self.entries.remove(k);
                let _ = self.engine.remove_document(entry.document_id.as_str());
                true
            },
            None => false,
        }
    }
}

/// Re-ingesting a path with unchanged bytes is idempotent: after one ingestion of `path` with
/// `checksum`, the entry for the path carries that checksum, so that by the contract of
/// `ingest` a second ingestion with it is reported `Unchanged` and changes nothing.
pub proof fn lemma_ingest_twice(es: Seq<PathEntry>, path: String, checksum: String, document: Document)
    ensures
        ({
            let once = match entry_for(es, path@) {
                Some(k) => if es[k].checksum@ == checksum@ {
                    es
                } else {
                    es.update(k, PathEntry { path, document_id: document.id, checksum })
                },
                None => es.push(PathEntry { path, document_id: document.id, checksum }),
            };
            entry_for(once, path@) matches Some(j) && once[j].checksum@ == checksum@
        }),
{
    lemma_entry_for_found(es, path@);
    match entry_for(es, path@) {
        Some(k) => {
            if es[k].checksum@ != checksum@ {
                let once = es.update(k, PathEntry { path, document_id: document.id, checksum });
                lemma_entry_for_update(es, path@, k, PathEntry { path, document_id: document.id, checksum });
            }
        },
        None => {
            let once = es.push(PathEntry { path, document_id: document.id, checksum });
            assert(once.drop_last() =~= es);
        },
    }
}

proof fn lemma_entry_for_found(es: Seq<PathEntry>, p: Seq<char>)
    ensures
        entry_for(es, p) matches Some(k) ==> 0 <= k < es.len() && es[k].path@ == p,
        entry_for(es, p) matches Some(k) ==> forall|j: int| k < j < es.len() ==> (#[trigger] es[j]).path@ != p,
    decreases es.len(),
{
    if es.len() > 0 && es.last().path@ != p {
        lemma_entry_for_found(es.drop_last(), p);
        if entry_for(es.drop_last(), p) is Some {
            assert forall|j: int| entry_for(es, p)->0 < j < es.len() implies (#[trigger] es[j]).path@ != p by {
                if j < es.len() - 1 {
                    assert(es[j] == es.drop_last()[j]);
                }
            }
        }
    }
}

proof fn lemma_entry_for_update(es: Seq<PathEntry>, p: Seq<char>, k: int, e: PathEntry)
    requires
        entry_for(es, p) == Some(k),
        e.path@ == p,
    ensures
        entry_for(es.update(k, e), p) == Some(k),
    decreases es.len(),
{
    lemma_entry_for_found(es, p);
    let u = es.update(k, e);
    if k < es.len() - 1 {
        assert(u.drop_last() =~= es.drop_last().update(k, e));
        assert(es.last().path@ != p);
        lemma_entry_for_update(es.drop_last(), p, k, e);
    }
}

} // verus!
