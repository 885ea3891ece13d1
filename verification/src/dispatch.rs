use vstd::prelude::*;

verus! {

// ===================================================================== //
// Script engine types, declared for the verifier
// ===================================================================== //

#[verifier::external_type_specification]
#[verifier::external_body]
pub struct ExEngine(rhai::Engine);

#[verifier::external_type_specification]
#[verifier::external_body]
pub struct ExAst(rhai::AST);

#[verifier::external_type_specification]
#[verifier::external_body]
pub struct ExFnPtr(rhai::FnPtr);

#[verifier::external_type_specification]
#[verifier::external_body]
pub struct ExDynamic(rhai::Dynamic);

/// The table of named hooks a script's evaluation yields
/// (`rhai::Map`); consumed right away by the extraction wrappers.
#[verifier::external_body]
pub struct HookTable {
    table: rhai::Map,
}

/// Relies on `rhai::Engine::compile`: compiles one script source; the
/// error text names the fault.
#[verifier::external_body]
fn compile_script(engine: &rhai::Engine, source: &str) -> (r: Result<rhai::AST, String>) {
    engine.compile(source).map_err(|e| format!("{}", e))
}

/// Relies on `rhai::Engine::eval_ast`: evaluates the compiled script
/// once and keeps the hook table it returns.
#[verifier::external_body]
fn eval_hooks(engine: &rhai::Engine, ast: &rhai::AST) -> (r: Result<HookTable, String>) {
    match engine.eval_ast::<rhai::Map>(ast) {
        Ok(table) => Ok(HookTable { table }),
        Err(e) => Err(format!("{}", e)),
    }
}

/// Relies on `rhai::Map::remove` (`BTreeMap::remove`): takes the
/// `on_msg` entry out of the hook table, keeping it when it is a
/// function pointer.
#[verifier::external_body]
fn take_on_msg(t: &mut HookTable) -> (r: Option<rhai::FnPtr>) {
    t.table.remove("on_msg").and_then(|x| x.try_cast::<rhai::FnPtr>())
}

/// Relies on `rhai::Map::remove` (`BTreeMap::remove`): takes the
/// `only_channels` entry out of the hook table, converting it to plain
/// strings when it is an array of strings.
#[verifier::external_body]
fn take_only_channels(t: &mut HookTable) -> (r: Option<Vec<String>>) {
    t.table.remove("only_channels").and_then(|x| x.try_cast::<rhai::Array>()).and_then(
        |x| x.into_iter().map(|d| d.try_cast::<String>()).collect(),
    )
}

/// Relies on `rhai::FnPtr::call`: runs the script hook with the
/// context object, device text, channel and samples; the outcome is
/// the script's.
#[verifier::external_body]
fn call_hook(
    engine: &rhai::Engine,
    ast: &rhai::AST,
    hook: &rhai::FnPtr,
    ctx: &rhai::Dynamic,
    device: &Option<String>,
    channel: &String,
    data: &rhai::Array,
) -> (r: Result<(), String>) {
    hook.call::<()>(engine, ast, (ctx.clone(), device.clone(), channel.clone(), data.clone()))
        .map_err(|e| format!("{}", e))
}

// ===================================================================== //
// Listeners
// ===================================================================== //

/// One loaded script listener: its compiled program, the optional
/// dispatch hook, and the optional channel allow-list.  Built once at
/// startup; immutable afterwards.
pub struct EventCallbacks {
    pub ast: rhai::AST,
    pub on_msg: Option<rhai::FnPtr>,
    pub only_listen: Option<Vec<String>>,
}

/// Some element of `l` reads `c`.
pub open spec fn contains_str(l: Seq<String>, c: Seq<char>) -> bool {
    exists|i: int| 0 <= i < l.len() && #[trigger] l[i]@ == c
}

/// Whether one of `l` equals `c`.
fn contains_string(l: &Vec<String>, c: &String) -> (r: bool)
    ensures
        r == contains_str(l@, c@),
{
    let mut i: usize = 0;
    while i < l.len()
        invariant
            i <= l@.len(),
            forall|j: int| 0 <= j < i ==> #[trigger] l@[j]@ != c@,
        decreases l@.len() - i,
    {
        if l[i] == *c {
            return true;
        }
        i = i + 1;
    }
    false
}

impl EventCallbacks {
    /// A listener takes part in a broadcast when it has a hook and its
    /// allow-list is absent (listen to everything) or contains the
    /// channel.
    pub open spec fn matches(self, channel: Seq<char>) -> bool {
        self.on_msg is Some && match self.only_listen {
            None => true,
            Some(l) => contains_str(l@, channel),
        }
    }

    /// Whether this listener takes part in a broadcast on `channel`.
    pub fn wants_channel(&self, channel: &String) -> (r: bool)
        ensures
            r == self.matches(channel@),
    {
        match &self.on_msg {
            None => false,
            Some(_) => match &self.only_listen {
                None => true,
                Some(l) => contains_string(l, channel),
            },
        }
    }

    /// Compile one script source and take its hooks.  The outcome is
    /// the script's: nothing more can be promised of it.
    pub fn from_str(source: &str, engine: &rhai::Engine) -> (r: Result<EventCallbacks, String>) {
        let ast = match compile_script(engine, source) {
            Ok(a) => a,
            Err(e) => {
                return Err(e);
            },
        };
        let mut table = match eval_hooks(engine, &ast) {
            Ok(t) => t,
            Err(e) => {
                return Err(e);
            },
        };
        let on_msg = take_on_msg(&mut table);
        let only_listen = take_only_channels(&mut table);
        Ok(EventCallbacks { ast, on_msg, only_listen })
    }

    /// Invoke this listener for one dispatch event.  A listener without
    /// a hook, or whose allow-list excludes the channel, is not
    /// invoked and reports success.
    pub fn on_msg(
        &self,
        engine: &rhai::Engine,
        ctx: &rhai::Dynamic,
        device: &Option<String>,
        channel: &String,
        data: &rhai::Array,
    ) -> (r: Result<(), String>)
        ensures
            !self.matches(channel@) ==> r is Ok,
    {
        match &self.on_msg {
            None => Ok(()),
            Some(hook) => {
                match &self.only_listen {
                    None => {},
                    Some(only) => {
                        if !contains_string(only, channel) {
                            return Ok(());
                        }
                    },
                }
                call_hook(engine, &self.ast, hook, ctx, device, channel, data)
            },
        }
    }
}

/// Compile one script source and append it to the listener table.  On
/// a compile or evaluation fault the table is unchanged and the error
/// text is returned, so startup can abort with a diagnostic.
pub fn add_script(
    scripts: &mut Vec<EventCallbacks>,
    engine: &rhai::Engine,
    source: &str,
) -> (r: Result<(), String>)
    ensures
        r is Ok ==> final(scripts)@.len() == old(scripts)@.len() + 1 && forall|j: int|
            0 <= j < old(scripts)@.len() ==> final(scripts)@[j] == old(scripts)@[j],
        r is Err ==> *final(scripts) == *old(scripts),
{
    match EventCallbacks::from_str(source, engine) {
        Ok(cb) => {
            scripts.push(cb);
            Ok(())
        },
        Err(e) => Err(e),
    }
}

// ===================================================================== //
// Broadcast
// ===================================================================== //

/// `plan` lists, in increasing order and exactly once each, the
/// indices of the listeners that take part in a broadcast on
/// `channel`.
pub open spec fn is_broadcast_plan(
    scripts: Seq<EventCallbacks>,
    channel: Seq<char>,
    plan: Seq<usize>,
) -> bool {
    &&& forall|a: int, b: int|
        0 <= a < b < plan.len() ==> #[trigger] plan[a] < #[trigger] plan[b]
    &&& forall|k: int|
        0 <= k < plan.len() ==> (#[trigger] plan[k] as int) < scripts.len() && scripts[plan[
            k
        ] as int].matches(channel)
    &&& forall|i: int|
        0 <= i < scripts.len() && (#[trigger] scripts[i]).matches(channel) ==> exists|k: int|
            0 <= k < plan.len() && #[trigger] plan[k] as int == i
}

/// The listeners a broadcast on `channel` invokes: exactly those whose
/// allow-list is absent or contains the channel (and which have a
/// hook), each exactly once, in table order.  The plan depends on the
/// listener table and the channel alone.
pub fn broadcast_plan(scripts: &Vec<EventCallbacks>, channel: &String) -> (r: Vec<usize>)
    ensures
        is_broadcast_plan(scripts@, channel@, r@),
{
    let mut plan: Vec<usize> = Vec::new();
    let mut i: usize = 0;
    while i < scripts.len()
        invariant
            i <= scripts@.len(),
            forall|a: int, b: int|
                0 <= a < b < plan@.len() ==> #[trigger] plan@[a] < #[trigger] plan@[b],
            forall|k: int|
                0 <= k < plan@.len() ==> (#[trigger] plan@[k] as int) < i && scripts@[plan@[
                    k
                ] as int].matches(channel@),
            forall|j: int|
                0 <= j < i && (#[trigger] scripts@[j]).matches(channel@) ==> exists|k: int|
                    0 <= k < plan@.len() && #[trigger] plan@[k] as int == j,
        decreases scripts@.len() - i,
    {
        let ghost plan0 = plan@;
        if scripts[i].wants_channel(channel) {
            plan.push(i);
            proof {
                assert(plan@[plan@.len() - 1] as int == i);
                assert forall|j: int|
                    0 <= j < i + 1 && (#[trigger] scripts@[j]).matches(channel@) implies exists|
                    k: int,
                |
                    0 <= k < plan@.len() && #[trigger] plan@[k] as int == j by {
                    if j == i {
                        assert(plan@[plan@.len() - 1] as int == j);
                    } else {
                        let k0 = choose|k: int|
                            0 <= k < plan0.len() && #[trigger] plan0[k] as int == j;
                        assert(plan@[k0] as int == j);
                    }
                }
            }
        }
        i = i + 1;
    }
    plan
}

/// The aggregate outcome of one broadcast, decided only after every
/// matching listener's outcome is in: success when all invocations
/// succeeded, else the first failure encountered.
pub fn collect_outcome(outcomes: &Vec<Result<(), String>>) -> (r: Result<(), String>)
    ensures
        r is Ok <==> (forall|i: int| 0 <= i < outcomes@.len() ==> #[trigger] outcomes@[i] is Ok),
        r matches Err(m) ==> exists|j: int|
            {
                &&& 0 <= j < outcomes@.len()
                &&& #[trigger] outcomes@[j] matches Err(m0) && m0@ == m@
                &&& forall|k: int| 0 <= k < j ==> #[trigger] outcomes@[k] is Ok
            },
{
    let mut i: usize = 0;
    while i < outcomes.len()
        invariant
            i <= outcomes@.len(),
            forall|k: int| 0 <= k < i ==> #[trigger] outcomes@[k] is Ok,
        decreases outcomes@.len() - i,
    {
        match &outcomes[i] {
            Ok(_) => {},
            Err(m) => {
                let out = m.clone();
                proof {
                    assert(outcomes@[i as int] matches Err(m0) && m0@ == out@);
                }
                return Err(out);
            },
        }
        i = i + 1;
    }
    Ok(())
}

/// Fault isolation: whatever outcomes the invocations produce — any
/// of them may fail — every matching listener holds exactly one slot
/// of the plan, so no failure prevents or doubles another listener's
/// invocation, and `collect_outcome` accounts for all of them.
pub proof fn lemma_fault_isolation(
    scripts: Seq<EventCallbacks>,
    channel: Seq<char>,
    plan: Seq<usize>,
    outcomes: Seq<Result<(), String>>,
    i: int,
)
    requires
        is_broadcast_plan(scripts, channel, plan),
        outcomes.len() == plan.len(),
        0 <= i < scripts.len(),
        scripts[i].matches(channel),
    ensures
        exists|k: int| 0 <= k < outcomes.len() && #[trigger] plan[k] as int == i,
        forall|k1: int, k2: int|
            0 <= k1 < plan.len() && 0 <= k2 < plan.len() && #[trigger] plan[k1] as int == i
                && #[trigger] plan[k2] as int == i ==> k1 == k2,
{
    assert(exists|k: int| 0 <= k < plan.len() && #[trigger] plan[k] as int == i);
    assert forall|k1: int, k2: int|
        0 <= k1 < plan.len() && 0 <= k2 < plan.len() && #[trigger] plan[k1] as int == i
            && #[trigger] plan[k2] as int == i implies k1 == k2 by {
        if k1 < k2 {
            assert(plan[k1] < plan[k2]);
        }
        if k2 < k1 {
            assert(plan[k2] < plan[k1]);
        }
    }
}

} // verus!
