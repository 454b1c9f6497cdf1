//! The history store: a durable map from a normalized signature (the
//! invocation tokens joined by single spaces) to the remembered invocation.
//! The map is held in signature order; re-adding an invocation overwrites
//! its entry. `SshCommandDatabase` turns store document text into catalog
//! fragments and new invocations into new document text; reading and
//! writing the file itself is the caller's business.

use vstd::prelude::*;

use crate::Error;
use crate::codec::dec_db;
use crate::codec::enc_db;
use crate::smap::entries_insert;
use crate::smap::keys_sorted;
use crate::smap::kv_view;
use crate::smap::lemma_insert_all_snoc;
use crate::smap::lemma_model_insert;
use crate::smap::map_of;
use crate::smap::model_insert;
use crate::smap::model_insert_all;
use crate::ssh_config::ItemModel;
use crate::ssh_config::SshItem;
use crate::ssh_config::SshItems;
use crate::ssh_config::clone_strings;
use crate::ssh_config::model_display_key;
use crate::state::State;
use crate::text::join_tokens;
use crate::text::join_with_spaces;

verus! {

/// The abstract value of one store entry, by its tag.
pub ghost enum EntryModel {
    /// A raw invocation's tokens.
    Raw(Seq<Seq<char>>),
}

/// The invocation tokens an entry remembers.
pub open spec fn entry_tokens(m: EntryModel) -> Seq<Seq<char>> {
    match m {
        EntryModel::Raw(toks) => toks,
    }
}

/// One persisted entry; the variant is the entry's tag in the document.
#[derive(Debug, Clone)]
pub enum DatabaseEntry {
    /// A raw invocation, token by token.
    Raw { contents: Vec<String> },
}

impl View for DatabaseEntry {
    type V = EntryModel;

    open spec fn view(&self) -> EntryModel {
        match self {
            DatabaseEntry::Raw { contents } => EntryModel::Raw(contents.deep_view()),
        }
    }
}

/// The persisted database: signature to entry, signatures unique and held
/// in lexicographic order.
#[derive(Debug, Clone)]
pub struct Database {
    entries: Vec<(String, DatabaseEntry)>,
}

impl View for Database {
    type V = Map<Seq<char>, EntryModel>;

    closed spec fn view(&self) -> Map<Seq<char>, EntryModel> {
        map_of(kv_view(self.entries@))
    }
}

impl Database {
    /// The entries as stored: signature and entry, in signature order.
    pub closed spec fn kv(&self) -> Seq<(Seq<char>, EntryModel)> {
        kv_view(self.entries@)
    }

    /// Signatures strictly increasing.
    pub open spec fn wf(&self) -> bool {
        keys_sorted(self.kv())
    }

    /// An empty database.
    pub fn new() -> (r: Database)
        ensures
            r.wf(),
            r.kv() == Seq::<(Seq<char>, EntryModel)>::empty(),
            r@ == Map::<Seq<char>, EntryModel>::empty(),
    {
        let r = Database { entries: Vec::new() };
        proof {
            assert(r.kv() =~= Seq::<(Seq<char>, EntryModel)>::empty());
        }
        r
    }

    /// Upserts a raw invocation under its joined-token signature.
    pub fn add_raw(&mut self, raw_session: &Vec<String>)
        requires
            old(self).wf(),
        ensures
            final(self).wf(),
            final(self).kv() == model_insert(
                old(self).kv(),
                join_with_spaces(raw_session.deep_view()),
                EntryModel::Raw(raw_session.deep_view()),
            ),
            final(self)@ == old(self)@.insert(
                join_with_spaces(raw_session.deep_view()),
                EntryModel::Raw(raw_session.deep_view()),
            ),
    {
        let key = join_tokens(raw_session);
        let entry = DatabaseEntry::Raw { contents: clone_strings(raw_session) };
        let ghost s = self.kv();
        let ghost k = key@;
        let ghost m = entry@;
        let mut tmp: Vec<(String, DatabaseEntry)> = Vec::new();
        core::mem::swap(&mut tmp, &mut self.entries);
        let tmp = entries_insert(tmp, key, entry);
        self.entries = tmp;
        proof {
            lemma_model_insert(s, k, m);
        }
    }

    /// The remembered invocations, one token vector per entry, in
    /// signature order.
    pub fn get_entries(&self) -> (r: Vec<Vec<String>>)
        ensures
            r@.len() == self.kv().len(),
            forall|i: int|
                0 <= i < r@.len() ==> (#[trigger] r@[i]).deep_view() == entry_tokens(
                    self.kv()[i].1,
                ),
    {
        let mut r: Vec<Vec<String>> = Vec::new();
        let mut i: usize = 0;
        while i < self.entries.len()
            invariant
                0 <= i <= self.entries@.len(),
                r@.len() == i,
                forall|j: int|
                    0 <= j < i ==> (#[trigger] r@[j]).deep_view() == entry_tokens(
                        kv_view(self.entries@)[j].1,
                    ),
            decreases self.entries@.len() - i,
        {
            let toks = match &self.entries[i].1 {
                DatabaseEntry::Raw { contents } => clone_strings(contents),
            };
            r.push(toks);
            proof {
                assert(kv_view(self.entries@)[i as int].1 == self.entries@[i as int].1@);
            }
            i = i + 1;
        }
        r
    }

    /// The catalog fragment the database stands for: one raw-invocation
    /// item per entry, keyed by the tokens joined with single spaces.
    pub fn items(&self) -> (r: SshItems)
        ensures
            r.wf(),
            r@ == history_fragment(self.kv()),
    {
        let mut r = SshItems::new();
        let mut i: usize = 0;
        proof {
            assert(kv_view(self.entries@).take(0) =~= Seq::<(Seq<char>, EntryModel)>::empty());
        }
        while i < self.entries.len()
            invariant
                0 <= i <= self.entries@.len(),
                r.wf(),
                r@ == history_fragment(kv_view(self.entries@).take(i as int)),
            decreases self.entries@.len() - i,
        {
            let toks = match &self.entries[i].1 {
                DatabaseEntry::Raw { contents } => clone_strings(contents),
            };
            let item = SshItem::Raw { contents: toks };
            r.insert(item);
            proof {
                let s = kv_view(self.entries@);
                assert(s[i as int].1 == self.entries@[i as int].1@);
                assert(s.take(i + 1).drop_last() =~= s.take(i as int));
                assert(s.take(i + 1).last() == s[i as int]);
                assert(model_display_key(ItemModel::Raw(entry_tokens(s[i as int].1)))
                    == join_with_spaces(entry_tokens(s[i as int].1)));
            }
            i = i + 1;
        }
        proof {
            assert(kv_view(self.entries@).take(self.entries@.len() as int) =~= kv_view(
                self.entries@,
            ));
        }
        r
    }

    /// Encodes the database as its canonical store document.
    pub fn encode(&self) -> (r: String)
        ensures
            r@ == enc_db(self.kv()),
    {
        crate::codec::encode_db(&self.entries)
    }

    /// Decodes a store document. Fails with `CorruptData` exactly when the
    /// text is not a well-formed store document; on success the database
    /// holds the document's entries, each later duplicate of a signature
    /// overwriting the earlier.
    pub fn decode(content: &str) -> (r: Result<Database, Error>)
        ensures
            match r {
                Ok(db) => {
                    &&& db.wf()
                    &&& dec_db(content@) matches Some(ps) && db.kv() == model_insert_all(
                        Seq::<(Seq<char>, EntryModel)>::empty(),
                        ps,
                    )
                },
                Err(e) => {
                    &&& e == Error::CorruptData
                    &&& dec_db(content@) is None
                },
            },
    {
        match crate::codec::decode_db(content) {
            None => Err(Error::CorruptData),
            Some(pairs) => {
                let ghost ps = dec_db(content@).unwrap();
                let mut db = Database::new();
                let mut i: usize = 0;
                let mut pairs = pairs;
                let n0 = pairs.len();
                proof {
                    assert(ps.take(0) =~= Seq::<(Seq<char>, EntryModel)>::empty());
                    assert(ps.len() == n0);
                }
                loop
                    invariant
                        pairs@.len() + i == ps.len(),
                        ps.len() <= usize::MAX,
                        kv_view(pairs@) == ps.skip(i as int),
                        db.wf(),
                        db.kv() == model_insert_all(
                            Seq::<(Seq<char>, EntryModel)>::empty(),
                            ps.take(i as int),
                        ),
                        i <= ps.len(),
                    ensures
                        db.wf(),
                        db.kv() == model_insert_all(
                            Seq::<(Seq<char>, EntryModel)>::empty(),
                            ps,
                        ),
                    decreases pairs@.len(),
                {
                    if pairs.len() == 0 {
                        proof {
                            assert(ps.take(i as int) =~= ps);
                        }
                        break;
                    }
                    let ghost prevkv = db.kv();
                    let (key, entry) = pairs.remove(0);
                    proof {
                        assert(kv_view(pairs@) =~= ps.skip(i as int).drop_first());
                        assert(ps.skip(i as int).drop_first() =~= ps.skip(i + 1));
                        assert((key@, entry@) == ps.skip(i as int)[0]);
                        assert(ps.skip(i as int)[0] == ps[i as int]);
                    }
                    let ghost k = key@;
                    let ghost m = entry@;
                    let mut tmp: Vec<(String, DatabaseEntry)> = Vec::new();
                    core::mem::swap(&mut tmp, &mut db.entries);
                    let tmp = entries_insert(tmp, key, entry);
                    db.entries = tmp;
                    proof {
                        lemma_model_insert(prevkv, k, m);
                        assert(ps.take(i + 1) =~= ps.take(i as int).push(ps[i as int]));
                        lemma_insert_all_snoc(
                            Seq::<(Seq<char>, EntryModel)>::empty(),
                            ps.take(i as int),
                            ps[i as int],
                        );
                    }
                    i = i + 1;
                }
                Ok(db)
            },
        }
    }
}

/// The catalog fragment of a stored entry sequence: one raw-invocation
/// item per entry, keyed by its joined tokens, in order.
pub open spec fn history_fragment(ps: Seq<(Seq<char>, EntryModel)>) -> Map<
    Seq<char>,
    ItemModel,
>
    decreases ps.len(),
{
    if ps.len() == 0 {
        Map::empty()
    } else {
        history_fragment(ps.drop_last()).insert(
            join_with_spaces(entry_tokens(ps.last().1)),
            ItemModel::Raw(entry_tokens(ps.last().1)),
        )
    }
}

/// Round trip: persisting a store, reloading what was written, and
/// re-persisting without changes produces the identical document text.
pub proof fn lemma_persist_round_trip(db: Database)
    requires
        db.wf(),
    ensures
        dec_db(enc_db(db.kv())) == Some(db.kv()),
        model_insert_all(Seq::<(Seq<char>, EntryModel)>::empty(), db.kv()) == db.kv(),
        enc_db(model_insert_all(Seq::<(Seq<char>, EntryModel)>::empty(), db.kv())) == enc_db(
            db.kv(),
        ),
{
    crate::codec::lemma_inv_db(db.kv());
    crate::smap::lemma_insert_all_append(
        Seq::<(Seq<char>, EntryModel)>::empty(),
        db.kv(),
    );
    assert(Seq::<(Seq<char>, EntryModel)>::empty() + db.kv() =~= db.kv());
}

/// Recording, persisting and reloading: the reloaded store is exactly the
/// recorded one, the entry under the invocation's signature is that very
/// invocation, and recording the same invocation again changes nothing.
pub proof fn lemma_record_then_load(db: Database, toks: Seq<Seq<char>>)
    requires
        db.wf(),
    ensures
        ({
            let k = join_with_spaces(toks);
            let m = EntryModel::Raw(toks);
            let recorded = model_insert(db.kv(), k, m);
            &&& keys_sorted(recorded)
            &&& dec_db(enc_db(recorded)) == Some(recorded)
            &&& map_of(recorded) == map_of(db.kv()).insert(k, m)
            &&& map_of(recorded)[k] == m
            &&& map_of(model_insert(recorded, k, m)) == map_of(recorded)
            &&& (forall|i: int|
                0 <= i < db.kv().len() ==> (#[trigger] db.kv()[i]).0 == join_with_spaces(
                    entry_tokens(db.kv()[i].1),
                )) ==> (forall|i: int|
                0 <= i < recorded.len() ==> (#[trigger] recorded[i]).0 == join_with_spaces(
                    entry_tokens(recorded[i].1),
                ))
        }),
{
    let k = join_with_spaces(toks);
    let m = EntryModel::Raw(toks);
    let recorded = model_insert(db.kv(), k, m);
    lemma_model_insert(db.kv(), k, m);
    crate::codec::lemma_inv_db(recorded);
    lemma_model_insert(recorded, k, m);
    assert(map_of(recorded).insert(k, m) =~= map_of(recorded));
    if forall|i: int|
        0 <= i < db.kv().len() ==> (#[trigger] db.kv()[i]).0 == join_with_spaces(
            entry_tokens(db.kv()[i].1),
        ) {
        assert forall|i: int|
            0 <= i < recorded.len() implies (#[trigger] recorded[i]).0 == join_with_spaces(
            entry_tokens(recorded[i].1),
        ) by {
            if recorded[i] == (k, m) {
                assert(entry_tokens(m) == toks);
            } else {
                let j = choose|j: int| 0 <= j < db.kv().len() && recorded[i] == db.kv()[j];
            }
        }
    }
}

/// For a store whose signatures all derive from their entries' tokens —
/// which recording maintains — the loaded catalog fragment holds exactly
/// the stored signatures, each mapping to the raw invocation stored under
/// it: `load_all` returns exactly the set of invocations written.
pub proof fn lemma_fragment_of_store(ps: Seq<(Seq<char>, EntryModel)>)
    requires
        keys_sorted(ps),
        forall|i: int|
            0 <= i < ps.len() ==> (#[trigger] ps[i]).0 == join_with_spaces(
                entry_tokens(ps[i].1),
            ),
    ensures
        forall|k: Seq<char>|
            #[trigger] history_fragment(ps).contains_key(k) <==> map_of(ps).contains_key(k),
        forall|k: Seq<char>|
            #[trigger] history_fragment(ps).contains_key(k) ==> history_fragment(ps)[k]
                == ItemModel::Raw(entry_tokens(map_of(ps)[k])),
    decreases ps.len(),
{
    if ps.len() > 0 {
        let d = ps.drop_last();
        assert(keys_sorted(d) && forall|i: int|
            0 <= i < d.len() ==> (#[trigger] d[i]) == ps[i]) by {
            assert(forall|i: int, j: int|
                0 <= i < j < d.len() ==> d[i] == ps[i] && d[j] == ps[j]);
        }
        lemma_fragment_of_store(d);
        let last = ps.last();
        assert(last.0 == join_with_spaces(entry_tokens(last.1)));
        assert(history_fragment(ps) == history_fragment(d).insert(
            last.0,
            ItemModel::Raw(entry_tokens(last.1)),
        ));
        assert(map_of(ps) == map_of(d).insert(last.0, last.1));
    }
}

/// Loads store documents and records invocations, as pure text-to-value
/// work; the caller reads and writes the file.
pub struct SshCommandDatabase {}

impl SshCommandDatabase {
    /// The catalog fragment of a store document; an absent file is an
    /// empty store. Fails with `CorruptData` exactly when present text is
    /// not a well-formed store document.
    pub fn get_items(&self, database_content: Option<&str>) -> (r: Result<SshItems, Error>)
        ensures
            match r {
                Ok(items) => {
                    &&& items.wf()
                    &&& match database_content {
                        None => items@ == Map::<Seq<char>, ItemModel>::empty(),
                        Some(c) => dec_db(c@) matches Some(ps) && items@ == history_fragment(
                            model_insert_all(Seq::<(Seq<char>, EntryModel)>::empty(), ps),
                        ),
                    }
                },
                Err(e) => {
                    &&& e == Error::CorruptData
                    &&& database_content matches Some(c) && dec_db(c@) is None
                },
            },
    {
        match database_content {
            None => Ok(SshItems::new()),
            Some(content) => {
                match Database::decode(content) {
                    Ok(db) => Ok(db.items()),
                    Err(e) => Err(e),
                }
            },
        }
    }

    /// Records a raw invocation: loads the given store document (an absent
    /// file is an empty store), upserts the invocation under its
    /// joined-token signature, and returns the new document to be written
    /// back. Fails with `CorruptData` exactly when present text is not a
    /// well-formed store document.
    pub fn add_item(&self, database_content: Option<&str>, raw_session: &Vec<String>) -> (r:
        Result<String, Error>)
        ensures
            match r {
                Ok(out) => match database_content {
                    None => out@ == enc_db(
                        model_insert(
                            Seq::<(Seq<char>, EntryModel)>::empty(),
                            join_with_spaces(raw_session.deep_view()),
                            EntryModel::Raw(raw_session.deep_view()),
                        ),
                    ),
                    Some(c) => dec_db(c@) matches Some(ps) && out@ == enc_db(
                        model_insert(
                            model_insert_all(Seq::<(Seq<char>, EntryModel)>::empty(), ps),
                            join_with_spaces(raw_session.deep_view()),
                            EntryModel::Raw(raw_session.deep_view()),
                        ),
                    ),
                },
                Err(e) => {
                    &&& e == Error::CorruptData
                    &&& database_content matches Some(c) && dec_db(c@) is None
                },
            },
    {
        let mut db = match database_content {
            None => Database::new(),
            Some(content) => {
                match Database::decode(content) {
                    Ok(db) => db,
                    Err(e) => {
                        return Err(e);
                    },
                }
            },
        };
        db.add_raw(raw_session);
        Ok(db.encode())
    }
}

/// Hands out the stateless history store service.
pub trait SshCommandDatabaseState {
    /// The history store service.
    fn ssh_command_database(&self) -> SshCommandDatabase;
}

impl SshCommandDatabaseState for State {
    fn ssh_command_database(&self) -> SshCommandDatabase {
        SshCommandDatabase {}
    }
}

} // verus!
