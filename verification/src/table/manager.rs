//! The tables of a server, and its settings.
use vstd::prelude::*;

use crate::index::secondary::{IndexManager, IndexView};
use crate::proto::command;
use crate::storage::cache::BlockCache;
use crate::storage::cache;
use crate::storage::engine::{EngineConfig, EngineConfigView, EngineView, StorageEngine, TableFile};
use crate::storage::engine;
use crate::storage::sstable::{CompressionType, Reads};
use crate::storage::sstable;
use crate::storage::wal::WalConfig;
use crate::table::held::HeldKeys;
use crate::table::names::KeyNames;
use crate::text;
use crate::types::Result;

verus! {

// ---------------------------------------------------------------------------------------------
// Settings
// ---------------------------------------------------------------------------------------------
/// Settings that can change while the server runs.
#[derive(Debug)]
pub struct DynamicServerConfig {
    pub worker_threads: usize,
    pub memtable_size_bytes: usize,
    pub block_cache_mb: usize,
    pub compaction_trigger: usize,
    pub commit_delay_us: u64,
    pub async_fsync: bool,
    pub auth_password: Option<String>,
}

/// The settings, by views.
pub struct ConfigView {
    pub worker_threads: usize,
    pub memtable_size_bytes: usize,
    pub block_cache_mb: usize,
    pub compaction_trigger: usize,
    pub commit_delay_us: u64,
    pub async_fsync: bool,
    pub auth_password: Option<Seq<char>>,
}

impl View for DynamicServerConfig {
    type V = ConfigView;

    open spec fn view(&self) -> ConfigView {
        ConfigView {
            worker_threads: self.worker_threads,
            memtable_size_bytes: self.memtable_size_bytes,
            block_cache_mb: self.block_cache_mb,
            compaction_trigger: self.compaction_trigger,
            commit_delay_us: self.commit_delay_us,
            async_fsync: self.async_fsync,
            auth_password: command::option_text(self.auth_password),
        }
    }
}

/// The settings of a server that nobody has changed.
pub open spec fn default_config(worker_threads: usize) -> ConfigView {
    ConfigView {
        worker_threads,
        memtable_size_bytes: 268435456,
        block_cache_mb: 0,
        compaction_trigger: 4,
        commit_delay_us: 1000,
        async_fsync: false,
        auth_password: None,
    }
}

fn copy_text(s: &Option<String>) -> (r: Option<String>)
    ensures
        command::option_text(r) == command::option_text(*s),
{
    match s {
        Some(t) => Some(t.as_str().to_owned()),
        None => None,
    }
}

impl DynamicServerConfig {
    /// The settings to start with on a machine with so many processors.
    pub fn with_threads(worker_threads: usize) -> (r: Self)
        ensures
            r@ == default_config(worker_threads),
    {
        DynamicServerConfig {
            worker_threads,
            memtable_size_bytes: 268435456,
            block_cache_mb: 0,
            compaction_trigger: 4,
            commit_delay_us: 1000,
            async_fsync: false,
            auth_password: None,
        }
    }

    /// The same settings once more.
    pub fn copy(&self) -> (r: Self)
        ensures
            r@ == self@,
    {
        DynamicServerConfig {
            worker_threads: self.worker_threads,
            memtable_size_bytes: self.memtable_size_bytes,
            block_cache_mb: self.block_cache_mb,
            compaction_trigger: self.compaction_trigger,
            commit_delay_us: self.commit_delay_us,
            async_fsync: self.async_fsync,
            auth_password: copy_text(&self.auth_password),
        }
    }
}

impl Default for DynamicServerConfig {
    /// The settings where the number of processors is not known.
    fn default() -> (r: Self)
        ensures
            r@ == default_config(4),
    {
        DynamicServerConfig::with_threads(4)
    }
}

// ---------------------------------------------------------------------------------------------
// Tables
// ---------------------------------------------------------------------------------------------
/// A table: its engine, its indices, the texts of its keys, and the keys that are being written.
pub struct Table {
    pub name: String,
    pub engine: StorageEngine,
    pub index_manager: IndexManager,
    pub key_names: KeyNames,
    pub held_keys: HeldKeys,
}

/// A table, by views.
pub struct TableState {
    pub name: Seq<char>,
    pub engine: EngineView,
    pub config: EngineConfigView,
    pub indices: Seq<IndexView>,
    pub compression: CompressionType,
    pub names: Map<u128, Seq<char>>,
    pub held: Set<u128>,
}

impl View for Table {
    type V = TableState;

    open spec fn view(&self) -> TableState {
        TableState {
            name: self.name@,
            engine: self.engine@,
            config: self.engine.spec_config()@,
            indices: self.index_manager@,
            compression: self.engine.spec_compression(),
            names: self.key_names@,
            held: self.held_keys@,
        }
    }
}

impl Table {
    pub open spec fn wf(&self) -> bool {
        self.engine.wf() && self.index_manager.wf()
    }
}

/// What a server holds: the directory of its data, the settings, the tables by name.
pub struct ManagerView {
    pub dir: Seq<char>,
    pub config: ConfigView,
    pub tables: Seq<TableState>,
}

/// The tables stand in the order of their names, and no name occurs twice.
pub open spec fn names_ascend(s: Seq<TableState>) -> bool {
    forall|i: int, j: int|
        0 <= i < j < s.len() ==> text::text_before((#[trigger] s[i]).name, (#[trigger] s[j]).name)
}

/// The place of the table with a name.
pub open spec fn table_place(s: Seq<TableState>, name: Seq<char>) -> Option<int>
    decreases s.len(),
{
    if s.len() == 0 {
        None
    } else if s.last().name == name {
        Some(s.len() - 1)
    } else {
        table_place(s.drop_last(), name)
    }
}

/// The names of some tables.
pub open spec fn names_of(s: Seq<TableState>) -> Seq<Seq<char>> {
    Seq::new(s.len(), |i: int| s[i].name)
}

/// The number of tables whose names stand before a name.
pub open spec fn names_before(s: Seq<TableState>, name: Seq<char>) -> nat
    decreases s.len(),
{
    if s.len() == 0 {
        0
    } else if text::text_before(s.last().name, name) {
        s.len()
    } else {
        names_before(s.drop_last(), name)
    }
}

/// The tables with one put in: in its place, or in place of the one with its name.
pub open spec fn with_table(s: Seq<TableState>, t: TableState) -> Seq<TableState> {
    match table_place(s, t.name) {
        Some(i) => s.update(i, t),
        None => s.insert(names_before(s, t.name) as int, t),
    }
}

/// The tables without the one with a name.
pub open spec fn without_table(s: Seq<TableState>, name: Seq<char>) -> Seq<TableState> {
    match table_place(s, name) {
        Some(i) => s.remove(i),
        None => s,
    }
}

/// The directory of a table.
pub open spec fn table_dir(dir: Seq<char>, name: Seq<char>) -> Seq<char> {
    engine::joined(engine::joined(dir, "tables"@), name)
}

pub proof fn lemma_table_place(s: Seq<TableState>, name: Seq<char>)
    ensures
        match table_place(s, name) {
            Some(i) => 0 <= i < s.len() && s[i].name == name && forall|j: int|
                i < j < s.len() ==> (#[trigger] s[j]).name != name,
            None => forall|j: int| 0 <= j < s.len() ==> (#[trigger] s[j]).name != name,
        },
    decreases s.len(),
{
    if s.len() > 0 {
        lemma_table_place(s.drop_last(), name);
        assert forall|j: int| 0 <= j < s.len() - 1 implies (#[trigger] s[j]).name
            == s.drop_last()[j].name by {}
    }
}

/// A table is found where it stands.
pub proof fn lemma_place_is(s: Seq<TableState>, name: Seq<char>, i: int)
    requires
        0 <= i < s.len(),
        s[i].name == name,
        names_ascend(s),
    ensures
        table_place(s, name) == Some(i),
{
    lemma_table_place(s, name);
    text::lemma_text_before(name, name, name);
    match table_place(s, name) {
        Some(j) => {
            if i < j {
                assert(text::text_before(s[i].name, s[j].name));
            } else if j < i {
                assert(text::text_before(s[j].name, s[i].name));
            }
        },
        None => {
            assert(s[i].name != name);
        },
    }
}

proof fn lemma_names_before(s: Seq<TableState>, name: Seq<char>)
    requires
        names_ascend(s),
    ensures
        names_before(s, name) <= s.len(),
        forall|j: int|
            0 <= j < names_before(s, name) ==> text::text_before((#[trigger] s[j]).name, name),
        forall|j: int|
            names_before(s, name) <= j < s.len() ==> !text::text_before((#[trigger] s[j]).name, name),
    decreases s.len(),
{
    if s.len() > 0 {
        let p = s.drop_last();
        assert forall|i: int, j: int| 0 <= i < j < p.len() implies text::text_before(
            (#[trigger] p[i]).name,
            (#[trigger] p[j]).name,
        ) by {
            assert(p[i] == s[i] && p[j] == s[j]);
        }
        lemma_names_before(p, name);
        let n = s.len() - 1;
        if text::text_before(s.last().name, name) {
            assert forall|j: int| 0 <= j < s.len() implies text::text_before(
                (#[trigger] s[j]).name,
                name,
            ) by {
                if j < n {
                    assert(text::text_before(s[j].name, s[n].name));
                    text::lemma_text_before(s[j].name, s[n].name, name);
                }
            }
        } else {
            assert forall|j: int| 0 <= j < names_before(s, name) implies text::text_before(
                (#[trigger] s[j]).name,
                name,
            ) by {
                assert(p[j] == s[j]);
            }
            assert forall|j: int|
                names_before(s, name) <= j < s.len() implies !text::text_before(
                (#[trigger] s[j]).name,
                name,
            ) by {
                if j < n {
                    assert(p[j] == s[j]);
                }
            }
        }
    }
}

proof fn lemma_insert_ascends(s: Seq<TableState>, t: TableState)
    requires
        names_ascend(s),
    ensures
        names_ascend(with_table(s, t)),
{
    lemma_table_place(s, t.name);
    lemma_names_before(s, t.name);
    let n = names_before(s, t.name) as int;
    let w = with_table(s, t);
    assert forall|i: int, j: int| 0 <= i < j < w.len() implies text::text_before(
        (#[trigger] w[i]).name,
        (#[trigger] w[j]).name,
    ) by {
        match table_place(s, t.name) {
            Some(at) => {
                assert(s[i].name == w[i].name && s[j].name == w[j].name);
            },
            None => {
                let a = if i < n { i } else { i - 1 };
                let b = if j < n { j } else { j - 1 };
                if i == n {
                    assert(w[j] == s[b]);
                    assert(!text::text_before(s[b].name, t.name));
                    text::lemma_text_before(t.name, s[b].name, t.name);
                } else if j == n {
                    assert(w[i] == s[a]);
                } else {
                    assert(w[i] == s[a] && w[j] == s[b]);
                }
            },
        }
    }
}

/// The tables of a server.
pub struct TableManager {
    base_data_dir: String,
    config: DynamicServerConfig,
    tables: Vec<Table>,
}

/// Some tables, by views.
pub open spec fn states(s: Seq<Table>) -> Seq<TableState> {
    Seq::new(s.len(), |i: int| s[i]@)
}

impl View for TableManager {
    type V = ManagerView;

    closed spec fn view(&self) -> ManagerView {
        ManagerView {
            dir: self.base_data_dir@,
            config: self.config@,
            tables: states(self.tables@),
        }
    }
}

impl TableManager {
    pub closed spec fn wf(&self) -> bool {
        &&& forall|i: int| 0 <= i < self.tables@.len() ==> (#[trigger] self.tables@[i]).wf()
        &&& names_ascend(states(self.tables@))
    }

    /// A server's tables always stand in the order of their names.
    pub proof fn law_tables_stand_by_name(&self)
        requires
            self.wf(),
        ensures
            names_ascend(self@.tables),
    {
    }

    /// A server without tables.
    pub fn init(
        base_data_dir: &str,
        memtable_size_bytes: usize,
        compaction_trigger: usize,
        wal_config: WalConfig,
        worker_threads: usize,
    ) -> (r: Self)
        ensures
            r.wf(),
            r@.dir == base_data_dir@,
            r@.tables.len() == 0,
            r@.config == (ConfigView {
                worker_threads,
                memtable_size_bytes,
                block_cache_mb: 0,
                compaction_trigger,
                commit_delay_us: wal_config.commit_delay_us,
                async_fsync: wal_config.async_fsync,
                auth_password: None,
            }),
    {
        TableManager {
            base_data_dir: base_data_dir.to_owned(),
            config: DynamicServerConfig {
                worker_threads,
                memtable_size_bytes,
                block_cache_mb: 0,
                compaction_trigger,
                commit_delay_us: wal_config.commit_delay_us,
                async_fsync: wal_config.async_fsync,
                auth_password: None,
            },
            tables: Vec::new(),
        }
    }

    pub fn get_config(&self) -> (r: DynamicServerConfig)
        ensures
            r@ == self@.config,
    {
        self.config.copy()
    }

    /// Changes the settings: the block cache and the memory tables of all tables follow.
    pub fn update_config(&mut self, new_conf: DynamicServerConfig, block_cache: &mut BlockCache)
        requires
            old(self).wf(),
            old(block_cache).wf(),
            new_conf.block_cache_mb * 1048576 <= usize::MAX,
        ensures
            final(self).wf(),
            final(self)@.dir == old(self)@.dir,
            final(self)@.config == new_conf@,
            final(self)@.tables == with_limit(old(self)@.tables, new_conf.memtable_size_bytes),
            final(block_cache).wf(),
            final(block_cache)@.capacity == new_conf.block_cache_mb * 1048576,
            final(block_cache)@.blocks == (if new_conf.block_cache_mb == 0 {
                Seq::empty()
            } else {
                cache::evicted(
                    old(block_cache)@.blocks,
                    (new_conf.block_cache_mb * 1048576) as int,
                )
            }),
    {
        let new_mem_limit: usize = new_conf.memtable_size_bytes;
        block_cache.set_capacity(new_conf.block_cache_mb * 1048576);
        self.config = new_conf;
        let ghost before = states(self.tables@);
        let ghost config = self.config@;
        let mut i: usize = 0;
        while i < self.tables.len()
            invariant
                i <= self.tables@.len(),
                self.tables@.len() == before.len(),
                self.config@ == config,
                self.base_data_dir@ == old(self)@.dir,
                forall|j: int| 0 <= j < self.tables@.len() ==> (#[trigger] self.tables@[j]).wf(),
                forall|j: int|
                    0 <= j < self.tables@.len() ==> (#[trigger] self.tables@[j])@ == (if j < i {
                        limited(before[j], new_mem_limit)
                    } else {
                        before[j]
                    }),
            decreases self.tables@.len() - i,
        {
            let ghost held = self.tables@;
            let table = &mut self.tables[i];
            table.engine.set_memtable_limit(new_mem_limit);
            i = i + 1;
        }
        proof {
            let after = states(self.tables@);
            assert(after =~= with_limit(before, new_mem_limit));
            assert forall|a: int, b: int| 0 <= a < b < after.len() implies text::text_before(
                (#[trigger] after[a]).name,
                (#[trigger] after[b]).name,
            ) by {
                assert(after[a].name == before[a].name && after[b].name == before[b].name);
            }
        }
    }

    pub fn get_auth_password(&self) -> (r: Option<String>)
        ensures
            command::option_text(r) == self@.config.auth_password,
    {
        copy_text(&self.config.auth_password)
    }

    pub fn set_auth_password(&mut self, pass: Option<String>)
        requires
            old(self).wf(),
        ensures
            final(self).wf(),
            final(self)@ == (ManagerView {
                config: ConfigView {
                    auth_password: command::option_text(pass),
                    ..old(self)@.config
                },
                ..old(self)@
            }),
    {
        self.config.auth_password = pass;
    }
}

/// A table whose memory table has another limit.
pub open spec fn limited(t: TableState, limit: usize) -> TableState {
    TableState { engine: EngineView { limit, ..t.engine }, ..t }
}

/// The tables with another limit of their memory tables.
pub open spec fn with_limit(s: Seq<TableState>, limit: usize) -> Seq<TableState> {
    Seq::new(s.len(), |i: int| limited(s[i], limit))
}

// ---------------------------------------------------------------------------------------------
// Finding, making and dropping tables
// ---------------------------------------------------------------------------------------------
/// How a server keeps the table with a name.
pub open spec fn kept_as(m: ManagerView, name: Seq<char>) -> EngineConfigView {
    EngineConfigView {
        db_path: table_dir(m.dir, name),
        memtable_max_bytes: m.config.memtable_size_bytes,
        l0_compaction_trigger: m.config.compaction_trigger,
        wal_config: WalConfig {
            commit_delay_us: m.config.commit_delay_us,
            async_fsync: m.config.async_fsync,
        },
    }
}

/// What a table that is opened may be: what its log and the listed files hold, kept as told.
pub open spec fn opened_as(
    can: Reads,
    listing: Seq<TableFile>,
    entries: Seq<(u128, crate::types::EntryView)>,
    next_seq: u64,
    config: EngineConfigView,
    name: Seq<char>,
    t: TableState,
) -> bool {
    &&& t.name == name
    &&& t.config == config
    &&& t.indices.len() == 0
    &&& t.compression == CompressionType::Lz4
    &&& t.names == Map::<u128, Seq<char>>::empty()
    &&& t.held == Set::<u128>::empty()
    &&& t.engine.memory == engine::loaded(entries)
    &&& t.engine.memory_size == engine::loaded_size(entries)
    &&& t.engine.waiting.len() == 0
    &&& t.engine.ttls == Map::<u128, u64>::empty()
    &&& t.engine.next_sst_id == engine::max_id(listing, listing.len() as int) + 1
    &&& t.engine.next_seq == next_seq
    &&& t.engine.limit == config.memtable_max_bytes
    &&& engine::taken_in(can, listing, t.engine.tables)
}

/// The contents of a log that may be missing.
pub open spec fn log_view(log: Option<&[u8]>) -> Option<Seq<u8>> {
    match log {
        Some(data) => Some(data@),
        None => None,
    }
}

impl TableManager {
    /// The place of the table with a name.
    pub fn find_table(&self, name: &str) -> (r: Option<usize>)
        requires
            self.wf(),
        ensures
            match r {
                Some(i) => i < self@.tables.len() && table_place(self@.tables, name@) == Some(
                    i as int,
                ),
                None => table_place(self@.tables, name@) is None,
            },
    {
        let ghost view = states(self.tables@);
        let mut i: usize = 0;
        while i < self.tables.len()
            invariant
                i <= self.tables@.len(),
                self.wf(),
                view == states(self.tables@),
                forall|j: int| 0 <= j < i ==> (#[trigger] view[j]).name != name@,
            decreases self.tables@.len() - i,
        {
            assert(view[i as int] == self.tables@[i as int]@);
            if text::text_eq(self.tables[i].name.as_str(), name) {
                proof {
                    lemma_place_is(view, name@, i as int);
                }
                return Some(i);
            }
            i = i + 1;
        }
        proof {
            lemma_table_place(view, name@);
        }
        None
    }

    /// The table at a place.
    pub fn table_at(&self, i: usize) -> (r: &Table)
        requires
            self.wf(),
            i < self@.tables.len(),
        ensures
            r.wf(),
            r@ == self@.tables[i as int],
    {
        &self.tables[i]
    }

    /// The table at a place, to be changed; it keeps its name and stays well formed.
    pub fn table_at_mut(&mut self, i: usize) -> (r: &mut Table)
        requires
            old(self).wf(),
            i < old(self)@.tables.len(),
        ensures
            r.wf(),
            r@ == old(self)@.tables[i as int],
            final(self)@ == (ManagerView {
                tables: old(self)@.tables.update(i as int, final(r)@),
                ..old(self)@
            }),
            final(r).wf() && final(r)@.name == r@.name ==> final(self).wf(),
    {
        proof {
            let view = states(self.tables@);
            assert forall|t: Table|
                #![trigger t.wf()]
                t.wf() && t@.name == view[i as int].name implies names_ascend(
                states(self.tables@.update(i as int, t)),
            ) by {
                let after = states(self.tables@.update(i as int, t));
                assert forall|a: int, b: int| 0 <= a < b < after.len() implies text::text_before(
                    (#[trigger] after[a]).name,
                    (#[trigger] after[b]).name,
                ) by {
                    assert(after[a].name == view[a].name && after[b].name == view[b].name);
                }
            }
            assert forall|t: Table|
                states(#[trigger] self.tables@.update(i as int, t)) == view.update(
                i as int,
                t@,
            ) by {
                assert(states(self.tables@.update(i as int, t)) =~= view.update(i as int, t@));
            }
        }
        &mut self.tables[i]
    }

    pub fn get_table(&self, name: &str) -> (r: Option<&Table>)
        requires
            self.wf(),
        ensures
            match r {
                Some(t) => t.wf() && (table_place(self@.tables, name@) matches Some(i) && t@
                    == self@.tables[i]),
                None => table_place(self@.tables, name@) is None,
            },
    {
        match self.find_table(name) {
            Some(i) => Some(&self.tables[i]),
            None => None,
        }
    }

    /// The names of the tables, in order.
    pub fn list_tables(&self) -> (r: Vec<String>)
        requires
            self.wf(),
        ensures
            engine::texts(r@) == names_of(self@.tables),
    {
        let ghost view = states(self.tables@);
        let mut out: Vec<String> = Vec::new();
        let mut i: usize = 0;
        while i < self.tables.len()
            invariant
                i <= self.tables@.len(),
                view == states(self.tables@),
                engine::texts(out@) == names_of(view.take(i as int)),
            decreases self.tables@.len() - i,
        {
            let ghost held = engine::texts(out@);
            out.push(self.tables[i].name.as_str().to_owned());
            proof {
                assert(view[i as int] == self.tables@[i as int]@);
                assert(engine::texts(out@) =~= held.push(view[i as int].name));
                assert(names_of(view.take(i + 1)) =~= names_of(view.take(i as int)).push(
                    view[i as int].name,
                ));
            }
            i = i + 1;
        }
        assert(view.take(i as int) =~= view);
        out
    }

    /// How the engine of a table with a name is kept.
    pub fn engine_config(&self, name: &str) -> (r: EngineConfig)
        ensures
            r@ == kept_as(self@, name@),
    {
        let tables_dir = engine::join_path(self.base_data_dir.as_str(), "tables");
        EngineConfig {
            db_path: engine::join_path(tables_dir.as_str(), name),
            memtable_max_bytes: self.config.memtable_size_bytes,
            l0_compaction_trigger: self.config.compaction_trigger,
            wal_config: WalConfig {
                commit_delay_us: self.config.commit_delay_us,
                async_fsync: self.config.async_fsync,
            },
        }
    }

    /// Puts a table in: in its place, or in place of the one with its name.
    fn put_table(&mut self, table: Table)
        requires
            old(self).wf(),
            table.wf(),
        ensures
            final(self).wf(),
            final(self)@ == (ManagerView {
                tables: with_table(old(self)@.tables, table@),
                ..old(self)@
            }),
    {
        let ghost view = states(self.tables@);
        let ghost held = self.tables@;
        let ghost tv = table@;
        proof {
            lemma_insert_ascends(view, tv);
            lemma_table_place(view, tv.name);
            lemma_names_before(view, tv.name);
        }
        match self.find_table(table.name.as_str()) {
            Some(i) => {
                let gone = self.tables.remove(i);
                self.tables.insert(i, table);
                proof {
                    assert(self.tables@ =~= held.update(i as int, table));
                    assert(states(self.tables@) =~= view.update(i as int, tv));
                }
            },
            None => {
                let mut i: usize = 0;
                while i < self.tables.len() && text::is_before(
                    self.tables[i].name.as_str(),
                    table.name.as_str(),
                )
                    invariant
                        i <= self.tables@.len(),
                        self.tables@ == held,
                        self.base_data_dir == old(self).base_data_dir,
                        self.config == old(self).config,
                        view == states(held),
                        tv == table@,
                        names_before(view, tv.name) <= view.len(),
                        forall|j: int|
                            0 <= j < names_before(view, tv.name) ==> text::text_before(
                                (#[trigger] view[j]).name,
                                tv.name,
                            ),
                        forall|j: int|
                            names_before(view, tv.name) <= j < view.len() ==> !text::text_before(
                                (#[trigger] view[j]).name,
                                tv.name,
                            ),
                        i <= names_before(view, tv.name),
                    decreases self.tables@.len() - i,
                {
                    assert(view[i as int] == held[i as int]@);
                    i = i + 1;
                }
                proof {
                    if i < held.len() {
                        assert(view[i as int] == held[i as int]@);
                    }
                    assert(i == names_before(view, tv.name));
                }
                self.tables.insert(i, table);
                proof {
                    assert(self.tables@ =~= held.insert(i as int, table));
                    assert(states(self.tables@) =~= view.insert(i as int, tv));
                }
            },
        }
    }

    /// Opens the table with a name from its files and its log, unless there is one.
    pub fn create_table<R: Fn(u64, u64, u64) -> Result<Vec<u8>>>(
        &mut self,
        name: &str,
        listing: &Vec<TableFile>,
        log: Option<&[u8]>,
        read: &R,
    ) -> (r: Result<()>)
        requires
            old(self).wf(),
            sstable::can_read(*read),
            forall|i: int| 0 <= i < listing@.len() ==> (#[trigger] listing@[i]).id < u64::MAX,
        ensures
            final(self).wf(),
            if table_place(old(self)@.tables, name@) is Some {
                r is Ok && final(self)@ == old(self)@
            } else {
                match engine::log_contents(log_view(log)) {
                    Err(e) => (r matches Err(err) && err@ == e) && final(self)@ == old(self)@,
                    Ok((entries, next_seq)) => r is Ok && exists|t: TableState| #[trigger]
                        opened_as(
                            sstable::outcomes(*read),
                            listing@,
                            entries,
                            next_seq,
                            kept_as(old(self)@, name@),
                            name@,
                            t,
                        ) && final(self)@ == (ManagerView {
                            tables: with_table(old(self)@.tables, t),
                            ..old(self)@
                        }),
                }
            },
    {
        if self.find_table(name).is_some() {
            return Ok(());
        }
        let config = self.engine_config(name);
        let opened = match StorageEngine::open(config, listing, log, read) {
            Err(e) => {
                return Err(e);
            },
            Ok(engine) => engine,
        };
        let table = Table {
            name: name.to_owned(),
            engine: opened,
            index_manager: IndexManager::new(),
            key_names: KeyNames::new(),
            held_keys: HeldKeys::new(),
        };
        let ghost t = table@;
        proof {
            let contents = engine::log_contents(log_view(log))->Ok_0;
            assert(opened_as(
                sstable::outcomes(*read),
                listing@,
                contents.0,
                contents.1,
                kept_as(old(self)@, name@),
                name@,
                t,
            ));
        }
        self.put_table(table);
        Ok(())
    }

    /// Drops a table; its directory is to be removed where there was one.
    pub fn drop_table(&mut self, name: &str) -> (r: bool)
        requires
            old(self).wf(),
        ensures
            final(self).wf(),
            r == (table_place(old(self)@.tables, name@) is Some),
            final(self)@ == (ManagerView {
                tables: without_table(old(self)@.tables, name@),
                ..old(self)@
            }),
    {
        let ghost view = states(self.tables@);
        let ghost held = self.tables@;
        match self.find_table(name) {
            None => false,
            Some(i) => {
                let gone = self.tables.remove(i);
                proof {
                    let after = states(self.tables@);
                    assert(after =~= view.remove(i as int));
                    assert forall|a: int, b: int| 0 <= a < b < after.len() implies text::text_before(
                        (#[trigger] after[a]).name,
                        (#[trigger] after[b]).name,
                    ) by {
                        let x = if a < i { a } else { a + 1 };
                        let y = if b < i { b } else { b + 1 };
                        assert(after[a] == view[x] && after[b] == view[y]);
                    }
                    assert forall|j: int| 0 <= j < self.tables@.len() implies (
                    #[trigger] self.tables@[j]).wf() by {
                        let x = if j < i { j } else { j + 1 };
                        assert(self.tables@[j] == held[x]);
                    }
                }
                true
            },
        }
    }

    /// Drops all records of a table, its indices too. Gives the files that are no longer used.
    pub fn truncate_table(&mut self, name: &str) -> (r: Option<Vec<String>>)
        requires
            old(self).wf(),
        ensures
            final(self).wf(),
            match table_place(old(self)@.tables, name@) {
                None => r is None && final(self)@ == old(self)@,
                Some(i) => {
                    let t = old(self)@.tables[i];
                    &&& r matches Some(gone) && engine::texts(gone@) == Seq::new(
                        t.engine.tables.len(),
                        |j: int| t.engine.tables[j].path,
                    )
                    &&& final(self)@ == (ManagerView {
                        tables: old(self)@.tables.update(i, truncated(t)),
                        ..old(self)@
                    })
                },
            },
    {
        match self.find_table(name) {
            None => None,
            Some(i) => {
                let table = self.table_at_mut(i);
                let gone = table.engine.truncate();
                table.index_manager.clear();
                table.key_names = KeyNames::new();
                assert(self@.tables[i as int].indices =~= Seq::empty());
                Some(gone)
            },
        }
    }
}

/// A table without records, indices or texts of keys.
pub open spec fn truncated(t: TableState) -> TableState {
    TableState {
        engine: EngineView {
            memory: Map::empty(),
            memory_size: 0,
            waiting: Seq::empty(),
            tables: Seq::empty(),
            ttls: Map::empty(),
            ..t.engine
        },
        indices: Seq::empty(),
        names: Map::empty(),
        ..t
    }
}

/// The directory of a backup: the one asked for, or a new one that is named after the time.
pub open spec fn backup_dir(dir: Seq<char>, custom: Option<Seq<char>>, now_secs: u64) -> Seq<char> {
    match custom {
        Some(target) => target,
        None => engine::joined(
            engine::joined(dir, "backups"@),
            "backup_"@ + text::dec_text(now_secs as nat),
        ),
    }
}

impl TableManager {
    /// The directory of a backup.
    pub fn backup_path(&self, custom: Option<&str>, now_secs: u64) -> (r: String)
        ensures
            r@ == backup_dir(
                self@.dir,
                match custom {
                    Some(t) => Some(t@),
                    None => None,
                },
                now_secs,
            ),
    {
        match custom {
            Some(target) => target.to_owned(),
            None => {
                let backups = engine::join_path(self.base_data_dir.as_str(), "backups");
                let mut name = "backup_".to_owned();
                text::push_text(&mut name, text::to_dec(now_secs).as_str());
                engine::join_path(backups.as_str(), name.as_str())
            },
        }
    }
}

// ---------------------------------------------------------------------------------------------
// Laws
// ---------------------------------------------------------------------------------------------
/// A table that was put in is found under its name; all others are found as before.
pub proof fn law_created_table_is_found(s: Seq<TableState>, t: TableState, other: Seq<char>)
    requires
        names_ascend(s),
    ensures
        names_ascend(with_table(s, t)),
        table_place(with_table(s, t), t.name) matches Some(i) && with_table(s, t)[i] == t,
        other != t.name ==> match table_place(s, other) {
            Some(i) => table_place(with_table(s, t), other) matches Some(j) && with_table(s, t)[j]
                == s[i],
            None => table_place(with_table(s, t), other) is None,
        },
{
    let w = with_table(s, t);
    lemma_insert_ascends(s, t);
    lemma_table_place(s, t.name);
    lemma_table_place(s, other);
    lemma_names_before(s, t.name);
    lemma_table_place(w, other);
    let n = names_before(s, t.name) as int;
    match table_place(s, t.name) {
        Some(i) => {
            lemma_place_is(w, t.name, i);
            if let Some(k) = table_place(s, other) {
                if other != t.name {
                    assert(w[k] == s[k]);
                    lemma_place_is(w, other, k);
                }
            } else if let Some(j) = table_place(w, other) {
                if other != t.name {
                    assert(w[j] == s[j]);
                }
            }
        },
        None => {
            assert(w[n] == t);
            lemma_place_is(w, t.name, n);
            if let Some(k) = table_place(s, other) {
                let j = if k < n { k } else { k + 1 };
                assert(w[j] == s[k]);
                lemma_place_is(w, other, j);
            } else if let Some(j) = table_place(w, other) {
                if other != t.name {
                    let k = if j < n { j } else { j - 1 };
                    assert(w[j] == s[k]);
                }
            }
        },
    }
}

/// A table that was dropped is no longer found; all others are found as before.
pub proof fn law_dropped_table_is_gone(s: Seq<TableState>, name: Seq<char>, other: Seq<char>)
    requires
        names_ascend(s),
    ensures
        names_ascend(without_table(s, name)),
        table_place(without_table(s, name), name) is None,
        other != name ==> match table_place(s, other) {
            Some(i) => table_place(without_table(s, name), other) matches Some(j)
                && without_table(s, name)[j] == s[i],
            None => table_place(without_table(s, name), other) is None,
        },
{
    let w = without_table(s, name);
    lemma_table_place(s, name);
    lemma_table_place(s, other);
    lemma_table_place(w, name);
    lemma_table_place(w, other);
    if let Some(at) = table_place(s, name) {
        assert forall|a: int, b: int| 0 <= a < b < w.len() implies text::text_before(
            (#[trigger] w[a]).name,
            (#[trigger] w[b]).name,
        ) by {
            let x = if a < at { a } else { a + 1 };
            let y = if b < at { b } else { b + 1 };
            assert(w[a] == s[x] && w[b] == s[y]);
        }
        if let Some(j) = table_place(w, name) {
            let k = if j < at { j } else { j + 1 };
            assert(w[j] == s[k]);
            lemma_place_is(s, name, k);
        }
        if let Some(k) = table_place(s, other) {
            if other != name {
                let j = if k < at { k } else { k - 1 };
                assert(w[j] == s[k]);
                lemma_place_is(w, other, j);
            }
        } else if let Some(j) = table_place(w, other) {
            let k = if j < at { j } else { j + 1 };
            assert(w[j] == s[k]);
        }
    }
}

} // verus!
