use vstd::prelude::*;

use crate::assoc::{
    entries_get, entries_insert, find_entry, has_key, is_first_key, lemma_insert_get,
    lemma_key_at,
};
use crate::embed::push_char;

verus! {

/// The platform a pipeline runs on, as far as module file names care.
#[derive(Clone, Copy, Debug, PartialEq, Eq, Structural)]
pub enum Platform {
    Unix,
    Windows,
    Other,
}

/// Where the output of a step goes.
#[derive(Clone, Copy, Debug, PartialEq, Eq, Structural)]
pub enum Route {
    /// Hand it to this step.
    Step(u32),
    /// The `attach` reference names no started step.
    UnknownReference,
    /// Nobody takes it.
    Drop,
}

/// `sub` occurs in `s`.
pub open spec fn contains_text(s: Seq<char>, sub: Seq<char>) -> bool {
    exists|i: int| 0 <= i <= s.len() - sub.len() && #[trigger] s.subrange(i, i + sub.len()) == sub
}

/// The file a module binary is loaded from: on Unix `.so` is appended unless the name holds it.
pub open spec fn module_file_name_spec(name: Seq<char>, platform: Platform) -> Seq<char> {
    if platform == Platform::Unix && !contains_text(name, ".so"@) {
        name + ".so"@
    } else {
        name
    }
}

pub open spec fn digit_char(d: nat) -> char {
    ((48 + d) as u8) as char
}

/// Decimal digits of `n`, without leading zeros.
pub open spec fn decimal(n: nat) -> Seq<char>
    decreases n,
{
    if n < 10 {
        seq![digit_char(n)]
    } else {
        decimal(n / 10).push(digit_char(n % 10))
    }
}

/// The reference of a step that names none: `step-` and its id.
pub open spec fn default_reference(id: u32) -> Seq<char> {
    "step-"@ + decimal(id as nat)
}

/// The reference a step is known by.
pub open spec fn step_reference(reference: Option<Seq<char>>, id: u32) -> Seq<char> {
    match reference {
        Some(r) => r,
        None => default_reference(id),
    }
}

/// Where the output of step `origin` goes: to the step its `attach` names, else to the next
/// step, else back to the first step (unless it came from the first step).
pub open spec fn route_spec(
    references: Seq<(Seq<char>, u32)>,
    started: Set<u32>,
    attach: Option<Seq<char>>,
    origin: u32,
) -> Route {
    match attach {
        Some(a) => match entries_get(references, a) {
            Some(id) => if started.contains(id) {
                Route::Step(id)
            } else {
                Route::UnknownReference
            },
            None => Route::UnknownReference,
        },
        None => if started.contains((origin + 1) as u32) {
            Route::Step((origin + 1) as u32)
        } else if origin > 0 {
            Route::Step(0)
        } else {
            Route::Drop
        },
    }
}

/// The set of the first `n` step ids.
pub open spec fn first_steps(n: u32) -> Set<u32> {
    Set::new(|i: u32| i < n)
}

/// Once all `n` steps have started, an output without `attach` goes to the next step; the
/// last step's output goes back to the first step, unless the first step is the last one.
pub proof fn law_route_follows_pipeline(references: Seq<(Seq<char>, u32)>, n: u32, origin: u32)
    requires
        origin < n,
    ensures
        route_spec(references, first_steps(n), None, origin) == if origin + 1 < n {
            Route::Step((origin + 1) as u32)
        } else if origin > 0 {
            Route::Step(0)
        } else {
            Route::Drop
        },
{
}

/// An `attach` reference goes to the step registered last under that reference, once that
/// step has started.
pub proof fn law_reference_resolves_to_last_step(
    references: Seq<(Seq<char>, u32)>,
    started: Set<u32>,
    reference: Seq<char>,
    id: u32,
    origin: u32,
)
    requires
        started.contains(id),
    ensures
        route_spec(entries_insert(references, reference, id), started, Some(reference), origin)
            == Route::Step(id),
{
    lemma_insert_get(references, reference, id);
}

pub proof fn lemma_decimal_len(n: nat)
    ensures
        decimal(n).len() >= 1,
        n < 10 <==> decimal(n).len() == 1,
    decreases n,
{
    if n >= 10 {
        lemma_decimal_len(n / 10);
    }
}

/// Steps without a reference of their own get distinct default references.
pub proof fn law_default_references_distinct(a: u32, b: u32)
    requires
        a != b,
    ensures
        default_reference(a) != default_reference(b),
{
    lemma_decimal_injective(a as nat, b as nat);
    if default_reference(a) == default_reference(b) {
        let p = "step-"@;
        assert(decimal(a as nat) =~= default_reference(a).subrange(p.len() as int, default_reference(a).len() as int));
        assert(decimal(b as nat) =~= default_reference(b).subrange(p.len() as int, default_reference(b).len() as int));
    }
}

pub proof fn lemma_decimal_injective(a: nat, b: nat)
    ensures
        decimal(a) == decimal(b) ==> a == b,
    decreases a,
{
    lemma_decimal_len(a);
    lemma_decimal_len(b);
    if decimal(a) == decimal(b) {
        if a < 10 {
            assert(b < 10);
            assert(decimal(a)[0] == digit_char(a));
            assert(decimal(b)[0] == digit_char(b));
            assert(((48 + a) as u8) as char == ((48 + b) as u8) as char);
            assert(((48 + a) as u8) as u32 == (((48 + a) as u8) as char) as u32);
            assert(((48 + b) as u8) as u32 == (((48 + b) as u8) as char) as u32);
        } else {
            assert(b >= 10);
            let da = decimal(a);
            assert(da.last() == digit_char(a % 10));
            assert(decimal(b).last() == digit_char(b % 10));
            assert(((48 + a % 10) as u8) as u32 == (((48 + a % 10) as u8) as char) as u32);
            assert(((48 + b % 10) as u8) as u32 == (((48 + b % 10) as u8) as char) as u32);
            assert(a % 10 == b % 10);
            assert(decimal(a / 10) =~= da.drop_last());
            assert(decimal(b / 10) =~= decimal(b).drop_last());
            lemma_decimal_injective(a / 10, b / 10);
        }
    }
}

/// Taking a file name for a file name changes nothing more.
pub proof fn law_module_file_name_idempotent(name: Seq<char>, platform: Platform)
    ensures
        module_file_name_spec(module_file_name_spec(name, platform), platform)
            == module_file_name_spec(name, platform),
{
    if platform == Platform::Unix && !contains_text(name, ".so"@) {
        let f = name + ".so"@;
        assert(f.subrange(name.len() as int, (name.len() + ".so"@.len()) as int) =~= ".so"@);
        assert(contains_text(f, ".so"@));
    }
}

/// On Unix a module file name is the name with `.so` appended where the name does not hold
/// `.so`, and the name itself where it does; elsewhere it is the name. Either way it starts
/// with the name, and on Unix it holds `.so`.
pub proof fn law_module_file_name(name: Seq<char>, platform: Platform)
    ensures
        platform == Platform::Unix && !contains_text(name, ".so"@) ==> module_file_name_spec(
            name,
            platform,
        ) == name + ".so"@,
        platform == Platform::Unix && contains_text(name, ".so"@) ==> module_file_name_spec(
            name,
            platform,
        ) == name,
        platform != Platform::Unix ==> module_file_name_spec(name, platform) == name,
        module_file_name_spec(name, platform).take(name.len() as int) == name,
        platform == Platform::Unix ==> contains_text(module_file_name_spec(name, platform), ".so"@),
{
    let f = module_file_name_spec(name, platform);
    if platform == Platform::Unix && !contains_text(name, ".so"@) {
        assert(f.subrange(name.len() as int, (name.len() + ".so"@.len()) as int) =~= ".so"@);
        assert(f.take(name.len() as int) =~= name);
    } else {
        assert(f.take(name.len() as int) =~= name);
    }
}

/// `str::contains` with a string pattern: whether `sub` occurs in `s`.
#[verifier::external_body]
fn str_contains(s: &str, sub: &str) -> (r: bool)
    ensures
        r == contains_text(s@, sub@),
{
    s.contains(sub)
}

/// The file a module binary is loaded from on `platform`.
pub fn module_file_name(name: &str, platform: Platform) -> (r: String)
    ensures
        r@ == module_file_name_spec(name@, platform),
{
    let mut file = String::from_str(name);
    if platform == Platform::Unix && !str_contains(name, ".so") {
        file.append(".so");
    }
    file
}

/// The decimal digits of `n`.
pub fn decimal_text(n: u32) -> (r: String)
    ensures
        r@ == decimal(n as nat),
    decreases n,
{
    let mut s = if n >= 10 {
        decimal_text(n / 10)
    } else {
        String::new()
    };
    let d = (n % 10) as u8;
    push_char(&mut s, (48 + d) as char);
    assert(s@ =~= decimal(n as nat));
    s
}

/// The decisions of the pipeline runtime: which steps exist under which references, which
/// have started, which module binaries exist, and where each output goes.
pub struct Router {
    references: Vec<(String, u32)>,
    started: Vec<u32>,
    steps: u32,
    modules: Vec<(String, String)>,
}

pub open spec fn text_pairs_model(s: Seq<(String, String)>) -> Seq<(Seq<char>, Seq<char>)> {
    Seq::new(s.len(), |i: int| (s[i].0@, s[i].1@))
}

pub open spec fn references_model(s: Seq<(String, u32)>) -> Seq<(Seq<char>, u32)> {
    Seq::new(s.len(), |i: int| (s[i].0@, s[i].1))
}

impl Router {
    /// Each reference with the step it stands for.
    pub closed spec fn references(&self) -> Seq<(Seq<char>, u32)> {
        references_model(self.references@)
    }

    /// The steps that have reported as started.
    pub closed spec fn started(&self) -> Set<u32> {
        self.started@.to_set()
    }

    /// How many steps have been loaded.
    pub closed spec fn steps(&self) -> u32 {
        self.steps
    }

    /// Each module name with its binary.
    pub closed spec fn modules(&self) -> Seq<(Seq<char>, Seq<char>)> {
        text_pairs_model(self.modules@)
    }

    /// How many distinct steps have reported as started.
    pub closed spec fn started_count(&self) -> nat {
        self.started@.len()
    }

    /// Each started step is recorded once.
    pub closed spec fn wf(&self) -> bool {
        self.started@.no_duplicates()
    }

    pub fn new() -> (r: Router)
        ensures
            r.references() == Seq::<(Seq<char>, u32)>::empty(),
            r.started() == Set::<u32>::empty(),
            r.steps() == 0,
            r.modules() == Seq::<(Seq<char>, Seq<char>)>::empty(),
            r.started_count() == 0,
            r.wf(),
    {
        let r = Router {
            references: Vec::new(),
            started: Vec::new(),
            steps: 0,
            modules: Vec::new(),
        };
        assert(r.references() =~= Seq::<(Seq<char>, u32)>::empty());
        assert(r.started() =~= Set::<u32>::empty());
        assert(r.modules() =~= Seq::<(Seq<char>, Seq<char>)>::empty());
        r
    }

    /// Registers a module binary under `name`; a later binary of the same name replaces it.
    pub fn add_module(&mut self, name: String, bin: String)
        requires
            old(self).wf(),
        ensures
            final(self).wf(),
            final(self).modules() == entries_insert(old(self).modules(), name@, bin@),
            final(self).references() == old(self).references(),
            final(self).started() == old(self).started(),
            final(self).steps() == old(self).steps(),
            final(self).started_count() == old(self).started_count(),
    {
        let ghost e = self.modules();
        let ghost (k, v) = (name@, bin@);
        let found = find_entry(&self.modules, &name);
        match found {
            Some(i) => {
                assert(is_first_key(e, k, i as int));
                proof {
                    lemma_key_at(e, k, i as int, v);
                }
                self.modules.set(i, (name, bin));
                assert(self.modules() =~= e.update(i as int, (k, v)));
            },
            None => {
                assert(!has_key(e, k));
                self.modules.push((name, bin));
                assert(self.modules() =~= e.push((k, v)));
            },
        }
    }

    /// The binary registered under `name`, if any.
    pub fn module_binary(&self, name: &String) -> (r: Option<String>)
        ensures
            match r {
                Some(b) => entries_get(self.modules(), name@) == Some(b@),
                None => entries_get(self.modules(), name@) is None,
            },
    {
        let ghost e = self.modules();
        match find_entry(&self.modules, name) {
            Some(i) => {
                assert(is_first_key(e, name@, i as int));
                proof {
                    lemma_key_at(e, name@, i as int, e[i as int].1);
                }
                Some(self.modules[i].1.clone())
            },
            None => {
                assert(!has_key(e, name@));
                None
            },
        }
    }

    /// Loads the next step under its reference (or `step-<id>`) and returns its id.
    pub fn add_step(&mut self, reference: Option<String>) -> (id: u32)
        requires
            old(self).wf(),
            old(self).steps() < u32::MAX,
        ensures
            final(self).wf(),
            id == old(self).steps(),
            final(self).steps() == id + 1,
            final(self).references() == entries_insert(
                old(self).references(),
                step_reference(
                    match reference {
                        Some(r) => Some(r@),
                        None => None,
                    },
                    id,
                ),
                id,
            ),
            final(self).started() == old(self).started(),
            final(self).modules() == old(self).modules(),
            final(self).started_count() == old(self).started_count(),
    {
        let id = self.steps;
        let name = match reference {
            Some(r) => r,
            None => {
                let mut n = String::from_str("step-");
                let digits = decimal_text(id);
                n.append(digits.as_str());
                n
            },
        };
        let ghost e = self.references();
        let ghost k = name@;
        match find_entry(&self.references, &name) {
            Some(i) => {
                assert(is_first_key(e, k, i as int));
                proof {
                    lemma_key_at(e, k, i as int, id);
                }
                self.references.set(i, (name, id));
                assert(self.references() =~= e.update(i as int, (k, id)));
            },
            None => {
                assert(!has_key(e, k));
                self.references.push((name, id));
                assert(self.references() =~= e.push((k, id)));
            },
        }
        self.steps = id + 1;
        id
    }

    /// Whether step `id` has reported as started.
    pub fn is_started(&self, id: u32) -> (r: bool)
        ensures
            r == self.started().contains(id),
    {
        let mut i: usize = 0;
        while i < self.started.len()
            invariant
                i <= self.started@.len(),
                forall|j: int| 0 <= j < i ==> self.started@[j] != id,
            decreases self.started@.len() - i,
        {
            if self.started[i] == id {
                assert(self.started@.contains(id));
                return true;
            }
            i = i + 1;
        }
        false
    }

    /// Records that step `id` started; tells whether as many distinct steps have started as
    /// were loaded.
    pub fn step_started(&mut self, id: u32) -> (all: bool)
        requires
            old(self).wf(),
        ensures
            final(self).wf(),
            final(self).started() == old(self).started().insert(id),
            final(self).started_count() == if old(self).started().contains(id) {
                old(self).started_count()
            } else {
                old(self).started_count() + 1
            },
            all == (#[verifier::truncate] (final(self).started_count() as u32) == final(self).steps()),
            final(self).references() == old(self).references(),
            final(self).steps() == old(self).steps(),
            final(self).modules() == old(self).modules(),
    {
        let ghost s0 = self.started@;
        if !self.is_started(id) {
            self.started.push(id);
            assert forall|a: u32| self.started@.contains(a) <==> (s0.contains(a) || a == id) by {
                if a == id {
                    assert(self.started@[s0.len() as int] == id);
                }
                if s0.contains(a) {
                    let i = choose|i: int| 0 <= i < s0.len() && s0[i] == a;
                    assert(self.started@[i] == a);
                }
            }
            assert(self.started@.to_set() =~= s0.to_set().insert(id));
            assert(self.started@.no_duplicates());
        } else {
            assert(s0.to_set().insert(id) =~= s0.to_set());
        }
        let count = #[verifier::truncate] (self.started.len() as u32);
        count == self.steps
    }

    /// Where the output of step `origin` goes, given the reference it attaches to, if any.
    pub fn route(&self, attach: Option<&String>, origin: u32) -> (r: Route)
        requires
            attach is None ==> origin < u32::MAX,
            attach is None && origin > 0 && !self.started().contains((origin + 1) as u32)
                ==> self.started().contains(0),
        ensures
            r == route_spec(
                self.references(),
                self.started(),
                match attach {
                    Some(a) => Some(a@),
                    None => None,
                },
                origin,
            ),
    {
        match attach {
            Some(a) => {
                let ghost e = self.references();
                match find_entry(&self.references, a) {
                    Some(i) => {
                        assert(is_first_key(e, a@, i as int));
                        proof {
                            lemma_key_at(e, a@, i as int, e[i as int].1);
                        }
                        let id = self.references[i].1;
                        if self.is_started(id) {
                            Route::Step(id)
                        } else {
                            Route::UnknownReference
                        }
                    },
                    None => {
                        assert(!has_key(e, a@));
                        Route::UnknownReference
                    },
                }
            },
            None => {
                let next = origin + 1;
                if self.is_started(next) {
                    Route::Step(next)
                } else if origin > 0 {
                    Route::Step(0)
                } else {
                    Route::Drop
                }
            },
        }
    }
}

} // verus!
