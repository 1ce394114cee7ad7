//! Knot descriptors, the run context, and the registry of knot types.
use vstd::prelude::*;
use crate::json::{Json, JsonValue, json_as_str, json_get};
use crate::knots::delay::{self, Delay, delay_of};
use crate::knots::filter::{self, Filter, conditions_of, require_all_of};
use crate::knots::http::{self, HttpRequest, headers_of, pairs_view, str_or};
use crate::knots::log::{self, Log};
use crate::knots::resend::{self, Resend, opt_view};
use crate::knots::set::{SetKnot, assignments_of};
use crate::knots::trigger::{Schedule, Webhook};
use crate::schema::{FieldModel, KnotSchema, copy_schema, schema_view};
use crate::text::{chars_of, chars_less, chars_equal, seq_less, lemma_seq_less_asym, lemma_seq_less_total, lemma_seq_less_trans};

verus! {

/// What a knot sees of the run: the id of the workflow.
pub struct Ctx {
    pub workflow_id: String,
}

/// A knot type: its kind, display name, description and port counts.
pub struct KnotDescriptor {
    pub kind: &'static str,
    pub name: &'static str,
    pub description: &'static str,
    pub output_count: usize,
    pub input_count: usize,
}

/// Which knot a kind is made by: a bundled one, or one that the caller
/// runs itself, known to the caller by a number.
#[derive(Clone, Copy)]
pub enum KnotFactory {
    Log,
    SetFields,
    Delay,
    Filter,
    Http,
    Resend,
    Webhook,
    Schedule,
    Custom(u64),
}

/// A configured knot, ready to run.
pub enum KnotInstance {
    Log(Log),
    SetFields(SetKnot),
    Delay(Delay),
    Filter(Filter),
    Http(HttpRequest),
    Resend(Resend),
    Webhook(Webhook),
    Schedule(Schedule),
    /// The caller's knot of this number, with its parameters.
    Custom(u64, JsonValue),
}

/// Whether `inst` is what `factory` makes from `params`.
pub open spec fn made_by(factory: KnotFactory, params: Json, inst: KnotInstance) -> bool {
    match (factory, inst) {
        (KnotFactory::Log, KnotInstance::Log(k)) => opt_view(k.message) == json_as_str(
            json_get(params, "message"@),
        ),
        (KnotFactory::SetFields, KnotInstance::SetFields(k)) => k.assignments_model() == assignments_of(params),
        (KnotFactory::Delay, KnotInstance::Delay(k)) => k.milliseconds == delay_of(params),
        (KnotFactory::Filter, KnotInstance::Filter(k)) => k.conditions_model() == conditions_of(
            params,
        ) && k.require_all == require_all_of(params),
        (KnotFactory::Http, KnotInstance::Http(k)) => {
            &&& k.method@ == str_or(params, "method"@, "GET"@)
            &&& k.url@ == str_or(params, "url"@, ""@)
            &&& pairs_view(k.headers@) == headers_of(params)
            &&& k.body@ == match json_get(params, "body"@) {
                Some(b) => b,
                None => Json::Null,
            }
        },
        (KnotFactory::Resend, KnotInstance::Resend(k)) => {
            &&& k.api_key@ == str_or(params, "apiKey"@, ""@)
            &&& k.from@ == str_or(params, "from"@, ""@)
            &&& k.to@ == str_or(params, "to"@, ""@)
            &&& k.subject@ == str_or(params, "subject"@, ""@)
            &&& opt_view(k.html) == json_as_str(json_get(params, "html"@))
            &&& opt_view(k.text) == json_as_str(json_get(params, "text"@))
        },
        (KnotFactory::Webhook, KnotInstance::Webhook(_)) => true,
        (KnotFactory::Schedule, KnotInstance::Schedule(_)) => true,
        (KnotFactory::Custom(n), KnotInstance::Custom(m, p)) => m == n && p@ == params,
        _ => false,
    }
}

/// Makes a knot with a factory.
pub fn make_knot(factory: KnotFactory, params: &JsonValue) -> (inst: KnotInstance)
    ensures
        made_by(factory, params@, inst),
{
    match factory {
        KnotFactory::Log => KnotInstance::Log(log::factory(params)),
        KnotFactory::SetFields => KnotInstance::SetFields(crate::knots::set::factory(params)),
        KnotFactory::Delay => KnotInstance::Delay(delay::factory(params)),
        KnotFactory::Filter => KnotInstance::Filter(filter::factory(params)),
        KnotFactory::Http => KnotInstance::Http(http::factory(params)),
        KnotFactory::Resend => KnotInstance::Resend(resend::factory(params)),
        KnotFactory::Webhook => KnotInstance::Webhook(crate::knots::trigger::webhook_factory(params)),
        KnotFactory::Schedule => KnotInstance::Schedule(crate::knots::trigger::schedule_factory(params)),
        KnotFactory::Custom(n) => KnotInstance::Custom(n, params.copy()),
    }
}

/// One registered knot type.
pub struct RegistryEntry {
    pub descriptor: KnotDescriptor,
    pub factory: KnotFactory,
    pub schema: KnotSchema,
}

/// The knot types a workflow can use, by kind.
pub struct Registry {
    entries: Vec<RegistryEntry>,
}

/// The first position of `k` in `ks`.
pub open spec fn first_index(ks: Seq<Seq<char>>, k: Seq<char>) -> Option<int>
    decreases ks.len(),
{
    if ks.len() == 0 {
        None
    } else if ks[0] == k {
        Some(0)
    } else {
        match first_index(ks.drop_first(), k) {
            Some(i) => Some(i + 1),
            None => None,
        }
    }
}

/// Where `first_index` finds `k`, `k` is there, and not before.
pub proof fn lemma_first_index(ks: Seq<Seq<char>>, k: Seq<char>)
    ensures
        match first_index(ks, k) {
            Some(i) => 0 <= i < ks.len() && ks[i] == k && forall|j: int| 0 <= j < i ==> ks[j] != k,
            None => forall|j: int| 0 <= j < ks.len() ==> ks[j] != k,
        },
    decreases ks.len(),
{
    if ks.len() > 0 && ks[0] != k {
        lemma_first_index(ks.drop_first(), k);
        match first_index(ks.drop_first(), k) {
            Some(i) => {
                assert forall|j: int| 0 <= j < i + 1 implies ks[j] != k by {
                    if j > 0 {
                        assert(ks[j] == ks.drop_first()[j - 1]);
                    }
                }
            },
            None => {
                assert forall|j: int| 0 <= j < ks.len() implies ks[j] != k by {
                    if j > 0 {
                        assert(ks[j] == ks.drop_first()[j - 1]);
                    }
                }
            },
        }
    }
}

/// In strictly increasing keys, each key is first found where it stands.
pub proof fn lemma_sorted_first_index(ks: Seq<Seq<char>>, i: int)
    requires
        strictly_sorted(ks),
        0 <= i < ks.len(),
    ensures
        first_index(ks, ks[i]) == Some(i),
{
    lemma_first_index(ks, ks[i]);
    match first_index(ks, ks[i]) {
        Some(j) => {
            if j < i {
                assert(seq_less(ks[j], ks[i]));
                lemma_seq_less_asym(ks[j], ks[i]);
            } else if j > i {
                assert(seq_less(ks[i], ks[j]));
                lemma_seq_less_asym(ks[i], ks[j]);
            }
        },
        None => {},
    }
}

/// Strictly increasing keys.
pub open spec fn strictly_sorted(ks: Seq<Seq<char>>) -> bool {
    forall|i: int, j: int| 0 <= i < j < ks.len() ==> seq_less(#[trigger] ks[i], #[trigger] ks[j])
}

/// The kinds of entries.
pub open spec fn entry_kinds(es: Seq<RegistryEntry>) -> Seq<Seq<char>> {
    es.map_values(|e: RegistryEntry| e.descriptor.kind@)
}

/// The entries after registering `e`: an entry of the same kind is
/// replaced, or `e` goes in before the first greater kind.
pub open spec fn entries_register(es: Seq<RegistryEntry>, e: RegistryEntry) -> Seq<RegistryEntry>
    decreases es.len(),
{
    if es.len() == 0 {
        seq![e]
    } else if es[0].descriptor.kind@ == e.descriptor.kind@ {
        seq![e] + es.drop_first()
    } else if seq_less(e.descriptor.kind@, es[0].descriptor.kind@) {
        seq![e] + es
    } else {
        seq![es[0]] + entries_register(es.drop_first(), e)
    }
}

/// The kinds that the default registry holds, in order.
pub open spec fn default_kinds() -> Seq<Seq<char>> {
    seq![
        "http.request"@,
        "notify.log"@,
        "notify.resend"@,
        "transform.delay"@,
        "transform.filter"@,
        "transform.set"@,
        "trigger.schedule"@,
        "trigger.webhook"@,
    ]
}

/// The factories of the default kinds, in the same order.
pub open spec fn default_factories() -> Seq<KnotFactory> {
    seq![
        KnotFactory::Http,
        KnotFactory::Log,
        KnotFactory::Resend,
        KnotFactory::Delay,
        KnotFactory::Filter,
        KnotFactory::SetFields,
        KnotFactory::Schedule,
        KnotFactory::Webhook,
    ]
}

/// The output counts of the default kinds, in the same order.
pub open spec fn default_output_counts() -> Seq<usize> {
    seq![1usize, 1, 1, 1, 2, 1, 1, 1]
}

/// The parameter fields of the default kinds, in the same order.
pub open spec fn default_schemas() -> Seq<Seq<FieldModel>> {
    seq![
        http::schema_model(),
        log::schema_model(),
        resend::schema_model(),
        delay::schema_model(),
        filter::schema_model(),
        crate::knots::set::schema_model(),
        Seq::empty(),
        Seq::empty(),
    ]
}

/// The display names of the default kinds, in the same order.
pub open spec fn default_names() -> Seq<Seq<char>> {
    seq![
        "HTTP Request"@,
        "Log"@,
        "Resend Email"@,
        "Delay"@,
        "Filter"@,
        "Set"@,
        "Schedule"@,
        "Webhook"@,
    ]
}

/// The descriptions of the default kinds, in the same order.
pub open spec fn default_descriptions() -> Seq<Seq<char>> {
    seq![
        "Makes an HTTP request per item and emits the response"@,
        "Logs each item to the console"@,
        "Send an email via the Resend API"@,
        "Waits for a number of milliseconds before continuing"@,
        "Routes items to output 0 (match) or output 1 (no match)"@,
        "Sets or modifies JSON fields on each item"@,
        "Starts a workflow on a schedule"@,
        "Starts a workflow from an incoming HTTP request"@,
    ]
}

/// The input counts of the default kinds, in the same order.
pub open spec fn default_input_counts() -> Seq<usize> {
    seq![1usize, 1, 1, 1, 1, 1, 0, 0]
}

proof fn lemma_register_prefix(es: Seq<RegistryEntry>, e: RegistryEntry, i: int)
    requires
        0 <= i <= es.len(),
        forall|j: int| 0 <= j < i ==> seq_less(#[trigger] es[j].descriptor.kind@, e.descriptor.kind@),
    ensures
        entries_register(es, e) == es.take(i) + entries_register(es.skip(i), e),
    decreases i,
{
    if i == 0 {
        assert(es.skip(0) == es);
        assert(es.take(0) + entries_register(es, e) =~= entries_register(es, e));
    } else {
        lemma_seq_less_asym(es[0].descriptor.kind@, e.descriptor.kind@);
        lemma_register_prefix(es.drop_first(), e, i - 1);
        assert(es.drop_first().skip(i - 1) == es.skip(i));
        assert(seq![es[0]] + (es.drop_first().take(i - 1) + entries_register(es.skip(i), e))
            =~= es.take(i) + entries_register(es.skip(i), e));
    }
}

impl Registry {
    /// The kinds are strictly increasing.
    #[verifier::type_invariant]
    spec fn sorted_kinds(self) -> bool {
        strictly_sorted(entry_kinds(self.entries@))
    }

    /// The kinds registered, in order.
    pub closed spec fn kinds_of(&self) -> Seq<Seq<char>> {
        entry_kinds(self.entries@)
    }

    /// The registered entries, in order.
    pub closed spec fn entries_of(&self) -> Seq<RegistryEntry> {
        self.entries@
    }

    /// The kinds of the entries.
    pub proof fn lemma_kinds(&self)
        ensures
            self.kinds_of() == entry_kinds(self.entries_of()),
            self.kinds_of().len() == self.entries_of().len(),
    {
    }

    /// A registry with the bundled knot types: `http.request`, `notify.log`,
    /// `notify.resend`, `transform.delay`, `transform.filter`,
    /// `transform.set`, `trigger.schedule` and `trigger.webhook`.
    pub fn default() -> (r: Registry)
        ensures
            r.kinds_of() == default_kinds(),
            strictly_sorted(r.kinds_of()),
            forall|i: int| 0 <= i < 8 ==> (#[trigger] r.entries_of()[i]).factory == default_factories()[i]
                && r.entries_of()[i].descriptor.output_count == default_output_counts()[i]
                && r.entries_of()[i].descriptor.input_count == default_input_counts()[i]
                && schema_view(r.entries_of()[i].schema@) == default_schemas()[i]
                && r.entries_of()[i].descriptor.name@ == default_names()[i]
                && r.entries_of()[i].descriptor.description@ == default_descriptions()[i],
    {
        let mut entries: Vec<RegistryEntry> = Vec::new();
        entries.push(RegistryEntry { descriptor: http::descriptor(), factory: KnotFactory::Http, schema: http::schema() });
        entries.push(RegistryEntry { descriptor: log::descriptor(), factory: KnotFactory::Log, schema: log::schema() });
        entries.push(RegistryEntry { descriptor: resend::descriptor(), factory: KnotFactory::Resend, schema: resend::schema() });
        entries.push(RegistryEntry { descriptor: delay::descriptor(), factory: KnotFactory::Delay, schema: delay::schema() });
        entries.push(RegistryEntry { descriptor: filter::descriptor(), factory: KnotFactory::Filter, schema: filter::schema() });
        entries.push(RegistryEntry { descriptor: crate::knots::set::descriptor(), factory: KnotFactory::SetFields, schema: crate::knots::set::schema() });
        entries.push(RegistryEntry { descriptor: crate::knots::trigger::schedule_descriptor(), factory: KnotFactory::Schedule, schema: crate::knots::trigger::schedule_schema() });
        entries.push(RegistryEntry { descriptor: crate::knots::trigger::webhook_descriptor(), factory: KnotFactory::Webhook, schema: crate::knots::trigger::webhook_schema() });
        proof {
            assert(entry_kinds(entries@) =~= default_kinds());
            lemma_default_sorted();
            assert(schema_view(entries@[6].schema@) =~= Seq::<FieldModel>::empty());
            assert(schema_view(entries@[7].schema@) =~= Seq::<FieldModel>::empty());
        }
        Registry { entries }
    }

    /// Registers a knot type, replacing one of the same kind.
    pub fn register(&mut self, descriptor: KnotDescriptor, factory: KnotFactory, schema: KnotSchema)
        ensures
            final(self).entries_of() == entries_register(
                old(self).entries_of(),
                RegistryEntry { descriptor, factory, schema },
            ),
            strictly_sorted(final(self).kinds_of()),
    {
        proof {
            use_type_invariant(&*self);
        }
        let ghost e = RegistryEntry { descriptor, factory, schema };
        let mut entries: Vec<RegistryEntry> = Vec::new();
        std::mem::swap(&mut entries, &mut self.entries);
        let ghost es = entries@;
        let k = chars_of(descriptor.kind);
        let n = entries.len();
        let mut i: usize = 0;
        while i < n
            invariant
                i <= n,
                n == entries@.len(),
                entries@ == es,
                k@ == descriptor.kind@,
                forall|j: int| 0 <= j < i ==> seq_less(#[trigger] entries@[j].descriptor.kind@, k@),
            ensures
                i <= n,
                entries@ == es,
                forall|j: int| 0 <= j < i ==> seq_less(#[trigger] entries@[j].descriptor.kind@, k@),
                i < n ==> !seq_less(entries@[i as int].descriptor.kind@, k@),
            decreases n - i,
        {
            let name = chars_of(entries[i].descriptor.kind);
            if !chars_less(&name, &k) {
                break;
            }
            i = i + 1;
        }
        proof {
            lemma_register_prefix(es, e, i as int);
        }
        let entry = RegistryEntry { descriptor, factory, schema };
        let mut replace = false;
        if i < n {
            let name = chars_of(entries[i].descriptor.kind);
            replace = chars_equal(&name, &k);
            proof {
                lemma_seq_less_total(k@, name@);
                assert(es.skip(i as int)[0] == es[i as int]);
            }
        }
        if replace {
            entries.set(i, entry);
            proof {
                assert(es.skip(i as int).drop_first() == es.skip(i + 1));
                assert(entries@ =~= es.take(i as int) + (seq![e] + es.skip(i + 1)));
            }
        } else {
            entries.insert(i, entry);
            proof {
                if i < n {
                    assert(entries@ =~= es.take(i as int) + (seq![e] + es.skip(i as int)));
                } else {
                    assert(es.skip(i as int) =~= Seq::<RegistryEntry>::empty());
                    assert(entries@ =~= es.take(i as int) + seq![e]);
                }
            }
        }
        proof {
            lemma_register_sorted(es, e);
        }
        self.entries = entries;
    }

    /// The entry of a kind.
    fn find(&self, kind: &str) -> (r: Option<usize>)
        ensures
            match r {
                Some(i) => first_index(self.kinds_of(), kind@) == Some(i as int) && i < self.entries_of().len(),
                None => first_index(self.kinds_of(), kind@) is None,
            },
    {
        let k = chars_of(kind);
        let mut i: usize = 0;
        let ghost ks = self.kinds_of();
        assert(ks.skip(0) == ks);
        while i < self.entries.len()
            invariant
                i <= self.entries@.len(),
                ks == self.kinds_of(),
                ks.len() == self.entries@.len(),
                k@ == kind@,
                first_index(ks, kind@) == match first_index(ks.skip(i as int), kind@) {
                    Some(j) => Some(j + i),
                    None => None,
                },
            decreases self.entries@.len() - i,
        {
            let name = chars_of(self.entries[i].descriptor.kind);
            assert(ks.skip(i as int)[0] == ks[i as int]);
            assert(ks.skip(i as int).drop_first() == ks.skip(i + 1));
            if chars_equal(&name, &k) {
                return Some(i);
            }
            i = i + 1;
        }
        None
    }

    /// The descriptor of a kind.
    pub fn descriptor(&self, kind: &str) -> (r: Option<&KnotDescriptor>)
        ensures
            match first_index(self.kinds_of(), kind@) {
                Some(i) => r == Some(&self.entries_of()[i].descriptor),
                None => r is None,
            },
    {
        match self.find(kind) {
            Some(i) => Some(&self.entries[i].descriptor),
            None => None,
        }
    }

    /// A knot of a kind, made from `params`.
    pub fn create(&self, kind: &str, params: &JsonValue) -> (r: Option<KnotInstance>)
        ensures
            match first_index(self.kinds_of(), kind@) {
                Some(i) => r matches Some(inst) && made_by(self.entries_of()[i].factory, params@, inst),
                None => r is None,
            },
    {
        match self.find(kind) {
            Some(i) => Some(make_knot(self.entries[i].factory, params)),
            None => None,
        }
    }

    /// The parameter schema of a kind.
    pub fn schema(&self, kind: &str) -> (r: Option<KnotSchema>)
        ensures
            match first_index(self.kinds_of(), kind@) {
                Some(i) => r matches Some(s) && schema_view(s@) == schema_view(self.entries_of()[i].schema@),
                None => r is None,
            },
    {
        match self.find(kind) {
            Some(i) => Some(copy_schema(&self.entries[i].schema)),
            None => None,
        }
    }

    /// The descriptors of all kinds, in kind order; the one at position `i`
    /// is what `descriptor` finds for its kind.
    pub fn kinds(&self) -> (r: Vec<&KnotDescriptor>)
        ensures
            r@.len() == self.entries_of().len(),
            forall|i: int| 0 <= i < r@.len() ==> *(#[trigger] r@[i]) == self.entries_of()[i].descriptor,
            forall|i: int, j: int| 0 <= i < j < r@.len() ==> seq_less(r@[i].kind@, r@[j].kind@),
            strictly_sorted(self.kinds_of()),
            forall|i: int| 0 <= i < r@.len() ==> first_index(self.kinds_of(), (#[trigger] r@[i]).kind@) == Some(i),
    {
        let mut r: Vec<&KnotDescriptor> = Vec::new();
        let mut i: usize = 0;
        while i < self.entries.len()
            invariant
                i <= self.entries@.len(),
                r@.len() == i,
                forall|k: int| 0 <= k < i ==> *(#[trigger] r@[k]) == self.entries@[k].descriptor,
            decreases self.entries@.len() - i,
        {
            r.push(&self.entries[i].descriptor);
            i = i + 1;
        }
        proof {
            use_type_invariant(self);
            assert forall|i: int, j: int| 0 <= i < j < r@.len() implies seq_less(r@[i].kind@, r@[j].kind@) by {
                assert(entry_kinds(self.entries@)[i] == self.entries@[i].descriptor.kind@);
                assert(entry_kinds(self.entries@)[j] == self.entries@[j].descriptor.kind@);
            }
            assert forall|i: int| 0 <= i < r@.len() implies first_index(self.kinds_of(), (#[trigger] r@[i]).kind@) == Some(i) by {
                assert(entry_kinds(self.entries@)[i] == self.entries@[i].descriptor.kind@);
                lemma_sorted_first_index(self.kinds_of(), i);
            }
        }
        r
    }

    /// Every kind's descriptor with its parameter schema, in kind order: the
    /// entry at position `i` is the one that `descriptor` and `schema` find
    /// for its kind (the first, and only, entry of that kind is at `i`), and
    /// the kinds are those of `kinds`, in the same order.
    pub fn catalog(&self) -> (r: Vec<(&KnotDescriptor, KnotSchema)>)
        ensures
            r@.len() == self.entries_of().len(),
            forall|i: int| 0 <= i < r@.len() ==> *(#[trigger] r@[i]).0 == self.entries_of()[i].descriptor
                && schema_view(r@[i].1@) == schema_view(self.entries_of()[i].schema@),
            forall|i: int, j: int| 0 <= i < j < r@.len() ==> seq_less(r@[i].0.kind@, r@[j].0.kind@),
            strictly_sorted(self.kinds_of()),
            forall|i: int| 0 <= i < r@.len() ==> first_index(self.kinds_of(), (#[trigger] r@[i]).0.kind@) == Some(i),
    {
        let mut r: Vec<(&KnotDescriptor, KnotSchema)> = Vec::new();
        let mut i: usize = 0;
        while i < self.entries.len()
            invariant
                i <= self.entries@.len(),
                r@.len() == i,
                forall|k: int| 0 <= k < i ==> *(#[trigger] r@[k]).0 == self.entries@[k].descriptor
                    && schema_view(r@[k].1@) == schema_view(self.entries@[k].schema@),
            decreases self.entries@.len() - i,
        {
            r.push((&self.entries[i].descriptor, copy_schema(&self.entries[i].schema)));
            i = i + 1;
        }
        proof {
            use_type_invariant(self);
            assert forall|i: int, j: int| 0 <= i < j < r@.len() implies seq_less(r@[i].0.kind@, r@[j].0.kind@) by {
                assert(entry_kinds(self.entries@)[i] == self.entries@[i].descriptor.kind@);
                assert(entry_kinds(self.entries@)[j] == self.entries@[j].descriptor.kind@);
            }
            assert forall|i: int| 0 <= i < r@.len() implies first_index(self.kinds_of(), (#[trigger] r@[i]).0.kind@) == Some(i) by {
                assert(entry_kinds(self.entries@)[i] == self.entries@[i].descriptor.kind@);
                lemma_sorted_first_index(self.kinds_of(), i);
            }
        }
        r
    }
}

proof fn lemma_default_sorted()
    ensures
        strictly_sorted(default_kinds()),
{
    reveal_strlit("http.request");
    reveal_strlit("notify.log");
    reveal_strlit("notify.resend");
    reveal_strlit("transform.delay");
    reveal_strlit("transform.filter");
    reveal_strlit("transform.set");
    reveal_strlit("trigger.schedule");
    reveal_strlit("trigger.webhook");
    let ks = default_kinds();
    reveal_with_fuel(seq_less, 12);
    assert(seq_less(ks[0], ks[1]));
    assert(seq_less(ks[1], ks[2]));
    assert(seq_less(ks[2], ks[3]));
    assert(seq_less(ks[3], ks[4]));
    assert(seq_less(ks[4], ks[5]));
    assert(seq_less(ks[5], ks[6]));
    assert(seq_less(ks[6], ks[7]));
    assert forall|i: int, j: int| 0 <= i < j < ks.len() implies seq_less(#[trigger] ks[i], #[trigger] ks[j]) by {
        lemma_chain(ks, i, j);
    }
}

proof fn lemma_chain(ks: Seq<Seq<char>>, i: int, j: int)
    requires
        0 <= i < j < ks.len(),
        forall|k: int| 0 <= k < ks.len() - 1 ==> seq_less(#[trigger] ks[k], ks[k + 1]),
    ensures
        seq_less(ks[i], ks[j]),
    decreases j - i,
{
    if j > i + 1 {
        lemma_chain(ks, i, j - 1);
        lemma_seq_less_trans(ks[i], ks[j - 1], ks[j]);
    }
}

/// Registering keeps the kinds strictly increasing.
proof fn lemma_register_sorted(es: Seq<RegistryEntry>, e: RegistryEntry)
    requires
        strictly_sorted(entry_kinds(es)),
    ensures
        strictly_sorted(entry_kinds(entries_register(es, e))),
    decreases es.len(),
{
    let r = entries_register(es, e);
    let k = e.descriptor.kind@;
    let ks = entry_kinds(es);
    let rs = entry_kinds(r);
    if es.len() == 0 {
    } else if es[0].descriptor.kind@ == k {
        assert forall|i: int, j: int| 0 <= i < j < rs.len() implies seq_less(#[trigger] rs[i], #[trigger] rs[j]) by {
            assert(rs[j] == ks[j]);
            if i > 0 {
                assert(rs[i] == ks[i]);
            } else {
                assert(rs[0] == ks[0]);
            }
        }
    } else if seq_less(k, es[0].descriptor.kind@) {
        assert forall|i: int, j: int| 0 <= i < j < rs.len() implies seq_less(#[trigger] rs[i], #[trigger] rs[j]) by {
            assert(rs[j] == ks[j - 1]);
            if i > 0 {
                assert(rs[i] == ks[i - 1]);
            } else if j > 1 {
                assert(seq_less(ks[0], ks[j - 1]));
                lemma_seq_less_trans(k, ks[0], ks[j - 1]);
            }
        }
    } else {
        lemma_seq_less_total(k, es[0].descriptor.kind@);
        let t = es.drop_first();
        assert(strictly_sorted(entry_kinds(t))) by {
            assert forall|i: int, j: int| 0 <= i < j < entry_kinds(t).len() implies seq_less(#[trigger] entry_kinds(t)[i], #[trigger] entry_kinds(t)[j]) by {
                assert(entry_kinds(t)[i] == ks[i + 1] && entry_kinds(t)[j] == ks[j + 1]);
            }
        }
        lemma_register_sorted(t, e);
        lemma_register_kinds(t, e);
        let rt = entries_register(t, e);
        assert forall|i: int, j: int| 0 <= i < j < rs.len() implies seq_less(#[trigger] rs[i], #[trigger] rs[j]) by {
            assert(rs[j] == rt[j - 1].descriptor.kind@);
            if i == 0 {
                let kj = rt[j - 1].descriptor.kind@;
                assert(rs[0] == ks[0]);
                if kj != k {
                    let m = choose|m: int| 0 <= m < t.len() && t[m].descriptor.kind@ == kj;
                    assert(ks[m + 1] == kj);
                    assert(seq_less(ks[0], ks[m + 1]));
                } else {
                    assert(seq_less(ks[0], k));
                }
            } else {
                assert(rs[i] == rt[i - 1].descriptor.kind@);
                assert(entry_kinds(rt)[i - 1] == rs[i] && entry_kinds(rt)[j - 1] == rs[j]);
            }
        }
    }
}

/// Every kind after registering is the new kind or an old one.
proof fn lemma_register_kinds(es: Seq<RegistryEntry>, e: RegistryEntry)
    ensures
        forall|i: int|
            0 <= i < entries_register(es, e).len() ==> #[trigger] entries_register(es, e)[i].descriptor.kind@ == e.descriptor.kind@
                || exists|m: int| 0 <= m < es.len() && es[m].descriptor.kind@ == entries_register(es, e)[i].descriptor.kind@,
    decreases es.len(),
{
    let r = entries_register(es, e);
    if es.len() == 0 {
    } else if es[0].descriptor.kind@ == e.descriptor.kind@ {
        assert forall|i: int| 0 <= i < r.len() implies #[trigger] r[i].descriptor.kind@ == e.descriptor.kind@
            || exists|m: int| 0 <= m < es.len() && es[m].descriptor.kind@ == r[i].descriptor.kind@ by {
            if i > 0 {
                assert(es[i].descriptor.kind@ == r[i].descriptor.kind@);
            }
        }
    } else if seq_less(e.descriptor.kind@, es[0].descriptor.kind@) {
        assert forall|i: int| 0 <= i < r.len() implies #[trigger] r[i].descriptor.kind@ == e.descriptor.kind@
            || exists|m: int| 0 <= m < es.len() && es[m].descriptor.kind@ == r[i].descriptor.kind@ by {
            if i > 0 {
                assert(es[i - 1].descriptor.kind@ == r[i].descriptor.kind@);
            }
        }
    } else {
        let t = es.drop_first();
        lemma_register_kinds(t, e);
        let rt = entries_register(t, e);
        assert forall|i: int| 0 <= i < r.len() implies #[trigger] r[i].descriptor.kind@ == e.descriptor.kind@
            || exists|m: int| 0 <= m < es.len() && es[m].descriptor.kind@ == r[i].descriptor.kind@ by {
            if i == 0 {
                assert(es[0].descriptor.kind@ == r[0].descriptor.kind@);
            } else {
                assert(r[i] == rt[i - 1]);
                if rt[i - 1].descriptor.kind@ != e.descriptor.kind@ {
                    let m = choose|m: int| 0 <= m < t.len() && t[m].descriptor.kind@ == rt[i - 1].descriptor.kind@;
                    assert(es[m + 1].descriptor.kind@ == r[i].descriptor.kind@);
                }
            }
        }
    }
}

} // verus!
