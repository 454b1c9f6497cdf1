//! SSH targets and the item catalog.
//!
//! An `SshItem` is one addressable destination: a host alias declared in the
//! SSH client configuration, or a raw invocation remembered from an earlier
//! session. `SshItems` is the catalog: a map from display key to item, held
//! in lexicographic key order, merged with last-source-wins on collision.
//! `SshConfigService` extracts declared hosts from configuration text.

use vstd::prelude::*;

use crate::Error;
use crate::smap::entries_get;
use crate::smap::entries_insert;
use crate::smap::keys_sorted;
use crate::smap::kv_view;
use crate::smap::lemma_map_of_props;
use crate::smap::lemma_model_insert;
use crate::smap::map_of;
use crate::smap::model_insert;
use crate::state::State;
use crate::text::join_tokens;
use crate::text::join_with_spaces;
use crate::text::lex_lt;
use crate::text::trim_range;
use crate::text::trim_spec;

verus! {

/// The abstract value of one addressable item.
pub ghost enum ItemModel {
    /// A host alias declared in the configuration file.
    Own(Seq<char>),
    /// A raw invocation: the argument tokens of an earlier session.
    Raw(Seq<Seq<char>>),
}

/// The text an item is shown and searched under, and the key it is
/// deduplicated by: the alias itself, or the tokens joined by spaces.
pub open spec fn model_display_key(m: ItemModel) -> Seq<char> {
    match m {
        ItemModel::Own(alias) => alias,
        ItemModel::Raw(toks) => join_with_spaces(toks),
    }
}

/// The argument vector an item hands to the SSH binary.
pub open spec fn model_invocation(m: ItemModel) -> Seq<Seq<char>> {
    match m {
        ItemModel::Own(alias) => seq![alias],
        ItemModel::Raw(toks) => toks,
    }
}

/// One addressable SSH destination.
#[derive(Debug, Clone)]
pub enum SshItem {
    /// A declared host alias.
    Own(String),
    /// A remembered raw invocation, token by token.
    Raw { contents: Vec<String> },
}

impl View for SshItem {
    type V = ItemModel;

    open spec fn view(&self) -> ItemModel {
        match self {
            SshItem::Own(alias) => ItemModel::Own(alias@),
            SshItem::Raw { contents } => ItemModel::Raw(contents.deep_view()),
        }
    }
}

/// Clones a token vector exactly.
pub fn clone_strings(v: &Vec<String>) -> (r: Vec<String>)
    ensures
        r@ == v@,
{
    let mut r: Vec<String> = Vec::new();
    let mut i: usize = 0;
    while i < v.len()
        invariant
            0 <= i <= v.len(),
            r@ == v@.subrange(0, i as int),
        decreases v.len() - i,
    {
        r.push(v[i].clone());
        proof {
            assert(r@ =~= v@.subrange(0, i + 1));
        }
        i = i + 1;
    }
    proof {
        assert(v@.subrange(0, v@.len() as int) =~= v@);
    }
    r
}

impl SshItem {
    /// Clones the item: the copy has the same abstract value.
    pub fn duplicate(&self) -> (r: SshItem)
        ensures
            r@ == self@,
    {
        match self {
            SshItem::Own(alias) => SshItem::Own(alias.clone()),
            SshItem::Raw { contents } => SshItem::Raw { contents: clone_strings(contents) },
        }
    }

    /// The argument vector to hand to the SSH binary: the alias alone for a
    /// declared host, the stored tokens verbatim for a raw invocation.
    pub fn to_host(&self) -> (r: Vec<String>)
        ensures
            r.deep_view() == model_invocation(self@),
    {
        match self {
            SshItem::Own(alias) => {
                let mut r: Vec<String> = Vec::new();
                r.push(alias.clone());
                proof {
                    assert(r.deep_view() =~= seq![alias@]);
                }
                r
            },
            SshItem::Raw { contents } => {
                let r = clone_strings(contents);
                proof {
                    assert(r.deep_view() =~= contents.deep_view());
                }
                r
            },
        }
    }

    /// The display key: derived from the invocation and nothing else.
    pub fn display_key(&self) -> (r: String)
        ensures
            r@ == model_display_key(self@),
    {
        match self {
            SshItem::Own(alias) => alias.clone(),
            SshItem::Raw { contents } => {
                let r = join_tokens(contents);
                r
            },
        }
    }
}

/// The catalog: display key to item, keys unique and held in lexicographic
/// order, each key derived from its item's invocation.
#[derive(Debug)]
pub struct SshItems {
    entries: Vec<(String, SshItem)>,
}

impl View for SshItems {
    type V = Map<Seq<char>, ItemModel>;

    closed spec fn view(&self) -> Map<Seq<char>, ItemModel> {
        map_of(kv_view(self.entries@))
    }
}

impl SshItems {
    /// Keys strictly increasing, and every key derived from its item.
    pub closed spec fn wf(&self) -> bool {
        &&& keys_sorted(kv_view(self.entries@))
        &&& forall|i: int|
            0 <= i < self.entries@.len() ==> (#[trigger] kv_view(self.entries@)[i]).0
                == model_display_key(kv_view(self.entries@)[i].1)
    }

    /// The items in display-key order.
    pub closed spec fn items_in_order(&self) -> Seq<ItemModel> {
        Seq::new(self.entries@.len(), |i: int| kv_view(self.entries@)[i].1)
    }

    /// An empty catalog.
    pub fn new() -> (r: SshItems)
        ensures
            r.wf(),
            r@ == Map::<Seq<char>, ItemModel>::empty(),
            r.items_in_order() == Seq::<ItemModel>::empty(),
    {
        let r = SshItems { entries: Vec::new() };
        proof {
            assert(kv_view(r.entries@).len() == 0);
            assert(r.items_in_order() =~= Seq::<ItemModel>::empty());
        }
        r
    }

    /// Inserts an item under its own display key, overwriting whatever the
    /// key held before.
    pub fn insert(&mut self, item: SshItem)
        requires
            old(self).wf(),
        ensures
            final(self).wf(),
            final(self)@ == old(self)@.insert(model_display_key(item@), item@),
    {
        let key = item.display_key();
        let ghost s = kv_view(self.entries@);
        let ghost k = key@;
        let ghost m = item@;
        let mut tmp: Vec<(String, SshItem)> = Vec::new();
        core::mem::swap(&mut tmp, &mut self.entries);
        let tmp = entries_insert(tmp, key, item);
        self.entries = tmp;
        proof {
            lemma_model_insert(s, k, m);
            assert(kv_view(self.entries@) == model_insert(s, k, m));
            assert forall|i: int|
                0 <= i < self.entries@.len() implies (#[trigger] kv_view(self.entries@)[i]).0
                == model_display_key(kv_view(self.entries@)[i].1) by {
                let r = model_insert(s, k, m);
                if r[i] == (k, m) {
                } else {
                    let j = choose|j: int| 0 <= j < s.len() && r[i] == s[j];
                }
            }
        }
    }

    /// The items, each cloned, in display-key order. Their display keys are
    /// strictly increasing, and they are exactly the catalog's items.
    pub fn to_vec(&self) -> (r: Vec<SshItem>)
        requires
            self.wf(),
        ensures
            r@.len() == self.items_in_order().len(),
            forall|i: int| 0 <= i < r@.len() ==> #[trigger] r@[i]@ == self.items_in_order()[i],
            forall|i: int, j: int|
                0 <= i < j < r@.len() ==> lex_lt(
                    model_display_key(#[trigger] r@[i]@),
                    model_display_key(#[trigger] r@[j]@),
                ),
            forall|i: int|
                0 <= i < r@.len() ==> self@.contains_key(model_display_key(#[trigger] r@[i]@))
                    && self@[model_display_key(r@[i]@)] == r@[i]@,
            forall|k: Seq<char>|
                self@.contains_key(k) ==> exists|i: int|
                    0 <= i < r@.len() && model_display_key(#[trigger] r@[i]@) == k,
    {
        proof {
            lemma_map_of_props(kv_view(self.entries@));
        }
        let mut r: Vec<SshItem> = Vec::new();
        let mut i: usize = 0;
        while i < self.entries.len()
            invariant
                0 <= i <= self.entries@.len(),
                r@.len() == i,
                forall|j: int| 0 <= j < i ==> #[trigger] r@[j]@ == kv_view(self.entries@)[j].1,
            decreases self.entries@.len() - i,
        {
            let item = self.entries[i].1.duplicate();
            r.push(item);
            proof {
                assert(kv_view(self.entries@)[i as int].1 == self.entries@[i as int].1@);
            }
            i = i + 1;
        }
        proof {
            assert forall|k: Seq<char>| self@.contains_key(k) implies exists|i: int|
                0 <= i < r@.len() && model_display_key(#[trigger] r@[i]@) == k by {
                let j = choose|j: int|
                    0 <= j < kv_view(self.entries@).len() && kv_view(self.entries@)[j].0 == k;
                assert(model_display_key(r@[j]@) == k);
            }
        }
        r
    }

    /// Exact-match lookup by display key.
    pub fn get_choice(&self, choice: &str) -> (r: Option<&SshItem>)
        requires
            self.wf(),
        ensures
            match r {
                Some(item) => self@.contains_key(choice@) && item@ == self@[choice@],
                None => !self@.contains_key(choice@),
            },
    {
        entries_get(&self.entries, choice)
    }

    /// Moves every item of `other` into `self`, leaving `other` empty.
    /// On a shared display key the item of `other` wins.
    pub fn append(&mut self, other: &mut SshItems)
        requires
            old(self).wf(),
            old(other).wf(),
        ensures
            final(self).wf(),
            final(other).wf(),
            final(self)@ == old(self)@.union_prefer_right(old(other)@),
            final(other)@ == Map::<Seq<char>, ItemModel>::empty(),
    {
        proof {
            lemma_map_of_props(kv_view(other.entries@));
        }
        while other.entries.len() > 0
            invariant
                self.wf(),
                other.wf(),
                self@.union_prefer_right(other@) == old(self)@.union_prefer_right(old(other)@),
            decreases other.entries@.len(),
        {
            let ghost so = kv_view(other.entries@);
            let ghost ss = kv_view(self.entries@);
            let (key0, item) = other.entries.pop().unwrap();
            proof {
                assert(kv_view(other.entries@) =~= so.drop_last());
                assert((key0@, item@) == so.last());
                assert(keys_sorted(so.drop_last())) by {
                    assert(forall|i: int, j: int|
                        0 <= i < j < so.drop_last().len() ==> so.drop_last()[i] == so[i]
                            && so.drop_last()[j] == so[j]);
                }
                assert(forall|i: int|
                    0 <= i < so.drop_last().len() ==> #[trigger] so.drop_last()[i] == so[i]);
                lemma_map_of_props(so);
                lemma_map_of_props(so.drop_last());
            }
            let ghost k = key0@;
            let ghost m = item@;
            proof {
                assert(k == model_display_key(m));
                // the popped key is not among the remaining keys
                if map_of(so.drop_last()).contains_key(k) {
                    let j = choose|j: int|
                        0 <= j < so.drop_last().len() && so.drop_last()[j].0 == k;
                    assert(lex_lt(so[j].0, so.last().0));
                    crate::text::lemma_lex_lt_irreflexive(k);
                }
            }
            let mut tmp: Vec<(String, SshItem)> = Vec::new();
            core::mem::swap(&mut tmp, &mut self.entries);
            let tmp = entries_insert(tmp, key0, item);
            self.entries = tmp;
            proof {
                lemma_model_insert(ss, k, m);
                assert(kv_view(self.entries@) == model_insert(ss, k, m));
                assert forall|i: int|
                    0 <= i < self.entries@.len() implies (#[trigger] kv_view(
                    self.entries@,
                )[i]).0 == model_display_key(kv_view(self.entries@)[i].1) by {
                    let r = model_insert(ss, k, m);
                    if r[i] == (k, m) {
                    } else {
                        let j = choose|j: int| 0 <= j < ss.len() && r[i] == ss[j];
                    }
                }
                assert(map_of(so) == map_of(so.drop_last()).insert(k, m));
                assert(self@.union_prefer_right(other@) =~= map_of(ss).union_prefer_right(
                    map_of(so),
                ));
            }
        }
        proof {
            assert(kv_view(other.entries@).len() == 0);
            assert(other@ =~= Map::<Seq<char>, ItemModel>::empty());
            assert(self@.union_prefer_right(other@) =~= self@);
        }
    }
}

/// Merge is last-source-wins: whenever both fragments hold the key, the
/// merged catalog holds the later fragment's item for it.
pub proof fn lemma_merge_last_wins(
    a: Map<Seq<char>, ItemModel>,
    b: Map<Seq<char>, ItemModel>,
    k: Seq<char>,
)
    requires
        b.contains_key(k),
    ensures
        a.union_prefer_right(b).contains_key(k),
        a.union_prefer_right(b)[k] == b[k],
{
}

/// Reads declared host aliases out of SSH client configuration text.
pub struct SshConfigService {}

/// The index of the first newline in `s`, or `s.len()` if there is none.
pub open spec fn first_nl(s: Seq<char>) -> int
    decreases s.len(),
{
    if s.len() == 0 {
        0
    } else if s[0] == '\n' {
        0
    } else {
        1 + first_nl(s.drop_first())
    }
}

/// `first_nl` stays within the sequence.
pub proof fn lemma_first_nl_bounds(s: Seq<char>)
    ensures
        0 <= first_nl(s) <= s.len(),
    decreases s.len(),
{
    if s.len() > 0 && s[0] != '\n' {
        lemma_first_nl_bounds(s.drop_first());
    }
}

/// The lines of `s`: the maximal newline-free pieces between newlines.
pub open spec fn split_lines(s: Seq<char>) -> Seq<Seq<char>>
    decreases s.len(),
    via split_lines_decreases
{
    if s.len() == 0 {
        Seq::empty()
    } else {
        let k = first_nl(s);
        if k == s.len() {
            seq![s]
        } else {
            seq![s.take(k)] + split_lines(s.skip(k + 1))
        }
    }
}

#[via_fn]
proof fn split_lines_decreases(s: Seq<char>) {
    lemma_first_nl_bounds(s);
}

/// The alias a line declares: for a line that starts with the literal
/// `Host ` token, the remainder with leading and trailing blanks trimmed;
/// for any other line, nothing.
pub open spec fn host_alias(line: Seq<char>) -> Option<Seq<char>> {
    if line.len() >= 5 && line[0] == 'H' && line[1] == 'o' && line[2] == 's' && line[3] == 't'
        && line[4] == ' ' {
        Some(trim_spec(line.skip(5)))
    } else {
        None
    }
}

/// The catalog fragment the lines produce, starting from `acc`: one
/// declared-host item per matching line, later lines overwriting earlier
/// ones.
pub open spec fn config_map_from(
    acc: Map<Seq<char>, ItemModel>,
    lines: Seq<Seq<char>>,
) -> Map<Seq<char>, ItemModel>
    decreases lines.len(),
{
    if lines.len() == 0 {
        acc
    } else {
        let step = match host_alias(lines[0]) {
            Some(alias) => acc.insert(alias, ItemModel::Own(alias)),
            None => acc,
        };
        config_map_from(step, lines.drop_first())
    }
}

/// The catalog fragment a configuration file's text produces.
pub open spec fn config_map(s: Seq<char>) -> Map<Seq<char>, ItemModel> {
    config_map_from(Map::empty(), split_lines(s))
}

/// `first_nl` is pinned by what the characters are.
proof fn lemma_first_nl(s: Seq<char>, c: int)
    requires
        0 <= c <= s.len(),
        forall|j: int| 0 <= j < c ==> s[j] != '\n',
        c == s.len() || s[c] == '\n',
    ensures
        first_nl(s) == c,
    decreases s.len(),
{
    if s.len() > 0 && s[0] != '\n' {
        assert forall|j: int| 0 <= j < c - 1 implies s.drop_first()[j] != '\n' by {
            assert(s.drop_first()[j] == s[j + 1]);
        }
        if c < s.len() {
            assert(s.drop_first()[c - 1] == s[c]);
        }
        lemma_first_nl(s.drop_first(), c - 1);
    }
}

impl SshConfigService {
    /// Extracts the declared hosts of a configuration file's text: one
    /// declared-host item per line that starts with `Host `, keyed by the
    /// trimmed alias, later lines overwriting earlier ones. A file that
    /// does not exist is `NotFound`.
    pub fn get_ssh_items(&self, ssh_config_content: Option<&str>) -> (r: Result<
        SshItems,
        Error,
    >)
        ensures
            match r {
                Ok(items) => {
                    &&& ssh_config_content matches Some(c) && items@ == config_map(c@)
                    &&& items.wf()
                },
                Err(e) => {
                    &&& e == Error::NotFound
                    &&& ssh_config_content is None
                },
            },
    {
        match ssh_config_content {
            None => Err(Error::NotFound),
            Some(content) => Ok(self.parse_config(content)),
        }
    }

    /// Extracts the declared hosts of the given configuration text.
    fn parse_config(&self, ssh_config_content: &str) -> (r: SshItems)
        ensures
            r.wf(),
            r@ == config_map(ssh_config_content@),
    {
        let s = ssh_config_content;
        let n = s.unicode_len();
        let mut items = SshItems::new();
        let mut i: usize = 0;
        proof {
            assert(s@.skip(0) =~= s@);
        }
        while i < n
            invariant
                0 <= i <= n,
                n == s@.len(),
                items.wf(),
                config_map_from(items@, split_lines(s@.skip(i as int))) == config_map(s@),
            decreases n - i,
        {
            let ghost rest = s@.skip(i as int);
            // find the end of the current line
            let mut k = i;
            while k < n && s.get_char(k) != '\n'
                invariant
                    i <= k <= n,
                    n == s@.len(),
                    forall|j: int| i <= j < k ==> s@[j] != '\n',
                decreases n - k,
            {
                k = k + 1;
            }
            proof {
                assert forall|j: int| 0 <= j < k - i implies rest[j] != '\n' by {
                    assert(rest[j] == s@[i + j]);
                }
                if k < n {
                    assert(rest[k - i] == s@[k as int]);
                }
                lemma_first_nl(rest, k - i);
                assert(rest.take(k - i) =~= s@.subrange(i as int, k as int));
            }
            let ghost line = s@.subrange(i as int, k as int);
            let ghost remaining = split_lines(rest);
            proof {
                if k < n {
                    assert(remaining == seq![line] + split_lines(rest.skip(k - i + 1)));
                    assert(rest.skip(k - i + 1) =~= s@.skip(k + 1));
                    assert(remaining[0] == line);
                    assert(remaining.drop_first() =~= split_lines(s@.skip(k + 1)));
                } else {
                    assert(remaining == seq![line]) by {
                        assert(rest.take(k - i) =~= rest);
                    }
                    assert(remaining[0] == line);
                    assert(remaining.drop_first() =~= Seq::<Seq<char>>::empty());
                    assert(split_lines(s@.skip(n as int)) =~= Seq::<Seq<char>>::empty()) by {
                        assert(s@.skip(n as int).len() == 0);
                    }
                }
            }
            // does the line declare a host?
            let is_host = k - i >= 5 && s.get_char(i) == 'H' && s.get_char(i + 1) == 'o'
                && s.get_char(i + 2) == 's' && s.get_char(i + 3) == 't' && s.get_char(i + 4)
                == ' ';
            proof {
                assert(line.len() == k - i);
                assert(forall|j: int| 0 <= j < line.len() ==> line[j] == s@[i + j]);
            }
            if is_host {
                let alias = trim_range(s, i + 5, k);
                proof {
                    assert(line.skip(5) =~= s@.subrange(i + 5, k as int));
                    assert(host_alias(line) == Some(alias@));
                }
                items.insert(SshItem::Own(alias));
            } else {
                proof {
                    assert(host_alias(line) is None);
                }
            }
            proof {
                assert(config_map_from(items@, remaining.drop_first()) == config_map(s@));
            }
            if k < n {
                i = k + 1;
            } else {
                i = n;
            }
        }
        proof {
            assert(s@.skip(n as int).len() == 0);
            assert(split_lines(s@.skip(i as int)) =~= Seq::<Seq<char>>::empty());
        }
        items
    }
}

/// Every key of the configuration fragment is a declared alias, it holds a
/// declared-host item for that very alias, and nothing else is produced:
/// a line yields an item exactly when it starts with `Host `.
pub proof fn lemma_config_lines(acc: Map<Seq<char>, ItemModel>, lines: Seq<Seq<char>>)
    ensures
        forall|k: Seq<char>|
            #[trigger] config_map_from(acc, lines).contains_key(k) <==> (acc.contains_key(k)
                || exists|i: int| 0 <= i < lines.len() && host_alias(#[trigger] lines[i])
                == Some(k)),
        forall|k: Seq<char>|
            #[trigger] config_map_from(acc, lines).contains_key(k) ==> config_map_from(
                acc,
                lines,
            )[k] == (if exists|i: int|
                0 <= i < lines.len() && host_alias(#[trigger] lines[i]) == Some(k) {
                ItemModel::Own(k)
            } else {
                acc[k]
            }),
    decreases lines.len(),
{
    if lines.len() > 0 {
        let step = match host_alias(lines[0]) {
            Some(alias) => acc.insert(alias, ItemModel::Own(alias)),
            None => acc,
        };
        lemma_config_lines(step, lines.drop_first());
        assert forall|i: int|
            1 <= i < lines.len() implies lines.drop_first()[i - 1] == lines[i] by {}
        assert forall|k: Seq<char>|
            #[trigger] config_map_from(acc, lines).contains_key(k) implies (acc.contains_key(k)
            || exists|i: int| 0 <= i < lines.len() && host_alias(#[trigger] lines[i]) == Some(
            k,
        )) by {
            if !acc.contains_key(k) {
                if step.contains_key(k) {
                    assert(host_alias(lines[0]) == Some(k));
                } else {
                    let i = choose|i: int|
                        0 <= i < lines.drop_first().len() && host_alias(
                            lines.drop_first()[i],
                        ) == Some(k);
                    assert(host_alias(lines[i + 1]) == Some(k));
                }
            }
        }
        assert forall|k: Seq<char>| (acc.contains_key(k) || exists|i: int|
            0 <= i < lines.len() && host_alias(#[trigger] lines[i]) == Some(
            k,
        )) implies #[trigger] config_map_from(acc, lines).contains_key(k) by {
            if acc.contains_key(k) {
                assert(step.contains_key(k));
            } else {
                let i = choose|i: int|
                    0 <= i < lines.len() && host_alias(lines[i]) == Some(k);
                if i == 0 {
                    assert(step.contains_key(k));
                } else {
                    assert(host_alias(lines.drop_first()[i - 1]) == Some(k));
                }
            }
        }
        assert forall|k: Seq<char>|
            #[trigger] config_map_from(acc, lines).contains_key(k) implies config_map_from(
            acc,
            lines,
        )[k] == (if exists|i: int|
            0 <= i < lines.len() && host_alias(#[trigger] lines[i]) == Some(k) {
            ItemModel::Own(k)
        } else {
            acc[k]
        }) by {
            if exists|i: int|
                0 <= i < lines.len() && host_alias(#[trigger] lines[i]) == Some(k) {
                let i = choose|i: int|
                    0 <= i < lines.len() && host_alias(lines[i]) == Some(k);
                if exists|j: int|
                    0 <= j < lines.drop_first().len() && host_alias(
                        #[trigger] lines.drop_first()[j],
                    ) == Some(k) {
                } else {
                    assert(i == 0);
                    assert(step.contains_key(k) && step[k] == ItemModel::Own(k));
                }
            } else {
                assert(forall|j: int|
                    0 <= j < lines.drop_first().len() ==> host_alias(
                        #[trigger] lines.drop_first()[j],
                    ) != Some(k));
                assert(step.contains_key(k) && step[k] == acc[k]);
            }
        }
    }
}

/// Hands out the stateless configuration reader.
pub trait SshConfigServiceState {
    /// The configuration reader service.
    fn ssh_config_service(&self) -> SshConfigService;
}

impl SshConfigServiceState for State {
    fn ssh_config_service(&self) -> SshConfigService {
        SshConfigService {}
    }
}

} // verus!
