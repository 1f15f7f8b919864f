use crate::lex::{scan_spec, Lexer, TokM, TokenM};
use crate::parser::{
    parse_spec, segs_of, stats_of, Arg, ArgM, Expression, PValM, PValue, Parser, Stat, StatM,
};
use vstd::prelude::*;
use vstd::string::StrSliceExecFns;
use vstd::string::StringExecFns;

verus! {

// ---------------------------------------------------------------------------
// The dynamic value model
// ---------------------------------------------------------------------------

/// A host-supplied callable: the embedding host implements this trait to
/// expose native functions to tag expressions. Nothing is assumed of what a
/// call returns; the evaluator handles every outcome.
pub trait HostFn: Sized + Copy {
    fn host_call(&self, args: Vec<Value<Self>>) -> Option<Value<Self>>;
}

/// A value of the runtime's dynamic model: the closed set of variants the
/// language knows.
pub enum Value<F> {
    Int(u32),
    String(String),
    Object(ObjectMap<F>),
    Function(F),
}

/// A mapping from names to values with last-insert-wins lookup; the object
/// variant's backing store.
pub struct ObjectMap<F> {
    pub entries: Vec<(String, Value<F>)>,
}

/// The mathematical model of a runtime value: objects become maps from key
/// character sequences to value models.
pub enum ValueModel<F> {
    Int(u32),
    String(Seq<char>),
    Object(Map<Seq<char>, ValueModel<F>>),
    Function(F),
}

pub open spec fn object_model<F>(entries: Seq<(String, Value<F>)>) -> Map<Seq<char>, ValueModel<F>>
    decreases entries,
{
    if entries.len() == 0 {
        Map::empty()
    } else {
        object_model(entries.drop_last()).insert(entries.last().0@, value_model(entries.last().1))
    }
}

pub open spec fn value_model<F>(v: Value<F>) -> ValueModel<F>
    decreases v,
{
    match v {
        Value::Int(i) => ValueModel::Int(i),
        Value::String(s) => ValueModel::String(s@),
        Value::Object(om) => ValueModel::Object(object_model(om.entries@)),
        Value::Function(f) => ValueModel::Function(f),
    }
}

impl<F> View for ObjectMap<F> {
    type V = Map<Seq<char>, ValueModel<F>>;

    open spec fn view(&self) -> Map<Seq<char>, ValueModel<F>> {
        object_model(self.entries@)
    }
}

/// A later entry with the same key shadows an earlier one.
proof fn lemma_object_model_last<F>(s: Seq<(String, Value<F>)>, key: Seq<char>, i: int)
    requires
        0 <= i < s.len(),
        s[i].0@ == key,
        forall|j: int| i < j < s.len() ==> #[trigger] s[j].0@ != key,
    ensures
        object_model(s).contains_key(key),
        object_model(s)[key] == value_model(s[i].1),
    decreases s.len(),
{
    if i == s.len() - 1 {
    } else {
        lemma_object_model_last(s.drop_last(), key, i);
    }
}

proof fn lemma_object_model_none<F>(s: Seq<(String, Value<F>)>, key: Seq<char>)
    requires
        forall|j: int| 0 <= j < s.len() ==> #[trigger] s[j].0@ != key,
    ensures
        !object_model(s).contains_key(key),
    decreases s.len(),
{
    if s.len() > 0 {
        lemma_object_model_none(s.drop_last(), key);
    }
}

/// Character-wise string equality.
pub(crate) fn str_eq(a: &str, b: &str) -> (r: bool)
    ensures
        r == (a@ == b@),
{
    let la = a.unicode_len();
    let lb = b.unicode_len();
    if la != lb {
        return false;
    }
    let mut i: usize = 0;
    while i < la
        invariant
            i <= la,
            la == a@.len(),
            la == b@.len(),
            forall|k: int| 0 <= k < i ==> a@[k] == b@[k],
        decreases la - i,
    {
        if a.get_char(i) != b.get_char(i) {
            return false;
        }
        i = i + 1;
    }
    proof {
        assert(a@ =~= b@);
    }
    true
}

impl<F> ObjectMap<F> {
    pub fn new() -> (r: Self)
        ensures
            r@ == Map::<Seq<char>, ValueModel<F>>::empty(),
            r.entries@.len() == 0,
    {
        ObjectMap { entries: Vec::new() }
    }

    /// Bind `name` to `value`; a rebound name takes the new value.
    pub fn insert(&mut self, name: String, value: Value<F>)
        ensures
            final(self)@ == old(self)@.insert(name@, value_model(value)),
    {
        let ghost pre = self.entries@;
        let ghost nv = name@;
        let ghost vm = value_model(value);
        self.entries.push((name, value));
        proof {
            assert(self.entries@.drop_last() =~= pre);
            assert(self.entries@.last().0@ == nv);
        }
    }

    /// Look `key` up: the most recently bound value under that name.
    pub fn get(&self, key: &str) -> (r: Option<&Value<F>>)
        ensures
            match r {
                Some(v) => self@.contains_key(key@) && value_model(*v) == self@[key@],
                None => !self@.contains_key(key@),
            },
    {
        let mut i = self.entries.len();
        loop
            invariant
                i <= self.entries.len(),
                forall|j: int| i <= j < self.entries@.len() ==> #[trigger] self.entries@[j].0@
                    != key@,
            ensures
                i == 0,
                forall|j: int| 0 <= j < self.entries@.len() ==> #[trigger] self.entries@[j].0@
                    != key@,
            decreases i,
        {
            if i == 0 {
                break;
            }
            i = i - 1;
            if str_eq(self.entries[i].0.as_str(), key) {
                proof {
                    lemma_object_model_last(self.entries@, key@, i as int);
                }
                return Some(&self.entries[i].1);
            }
        }
        proof {
            lemma_object_model_none(self.entries@, key@);
        }
        None
    }
}

/// The root data object of a render: a name-to-value map supplied by the
/// host.
pub struct Context<F>(pub ObjectMap<F>);

impl<F> View for Context<F> {
    type V = Map<Seq<char>, ValueModel<F>>;

    open spec fn view(&self) -> Map<Seq<char>, ValueModel<F>> {
        self.0@
    }
}

impl<F> Context<F> {
    pub fn new() -> (r: Self)
        ensures
            r@ == Map::<Seq<char>, ValueModel<F>>::empty(),
    {
        Context(ObjectMap::new())
    }

    /// Bind `name` to an object value.
    pub fn add_object(&mut self, name: String, object: ObjectMap<F>)
        ensures
            final(self)@ == old(self)@.insert(name@, ValueModel::Object(object@)),
    {
        self.0.insert(name, Value::Object(object));
    }

    pub fn get(&self, key: &str) -> (r: Option<&Value<F>>)
        ensures
            match r {
                Some(v) => self@.contains_key(key@) && value_model(*v) == self@[key@],
                None => !self@.contains_key(key@),
            },
    {
        self.0.get(key)
    }
}

// ---------------------------------------------------------------------------
// Decimal rendering
// ---------------------------------------------------------------------------

pub open spec fn digit_char(d: nat) -> char {
    if d == 0 {
        '0'
    } else if d == 1 {
        '1'
    } else if d == 2 {
        '2'
    } else if d == 3 {
        '3'
    } else if d == 4 {
        '4'
    } else if d == 5 {
        '5'
    } else if d == 6 {
        '6'
    } else if d == 7 {
        '7'
    } else if d == 8 {
        '8'
    } else {
        '9'
    }
}

/// The decimal digits of `n`, most significant first.
pub open spec fn dec_str(n: nat) -> Seq<char>
    decreases n,
{
    if n < 10 {
        seq![digit_char(n)]
    } else {
        dec_str(n / 10) + seq![digit_char(n % 10)]
    }
}

spec fn rev_chars(v: Seq<u32>) -> Seq<char>
    decreases v.len(),
{
    if v.len() == 0 {
        Seq::empty()
    } else {
        seq![digit_char(v.last() as nat)] + rev_chars(v.drop_last())
    }
}

proof fn lemma_rev_chars_first(v: Seq<u32>)
    requires
        v.len() > 0,
    ensures
        rev_chars(v) == rev_chars(v.drop_first()) + seq![digit_char(v.first() as nat)],
    decreases v.len(),
{
    if v.len() == 1 {
        assert(v.drop_first() =~= Seq::<u32>::empty());
        assert(v.drop_last() =~= Seq::<u32>::empty());
        assert(rev_chars(Seq::<u32>::empty()) == Seq::<char>::empty());
        assert(rev_chars(v) == seq![digit_char(v.last() as nat)] + Seq::<char>::empty());
        assert(rev_chars(v) =~= rev_chars(v.drop_first()) + seq![digit_char(v.first() as nat)]);
    } else {
        lemma_rev_chars_first(v.drop_last());
        assert(v.drop_last().drop_first() =~= v.drop_first().drop_last());
        assert(v.drop_last().first() == v.first());
        assert(v.drop_first().last() == v.last());
        assert(rev_chars(v) =~= rev_chars(v.drop_first()) + seq![digit_char(v.first() as nat)]);
    }
}

fn push_digit(s: &mut String, d: u32)
    requires
        d < 10,
    ensures
        final(s)@ == old(s)@ + seq![digit_char(d as nat)],
{
    proof {
        reveal_strlit("0");
        reveal_strlit("1");
        reveal_strlit("2");
        reveal_strlit("3");
        reveal_strlit("4");
        reveal_strlit("5");
        reveal_strlit("6");
        reveal_strlit("7");
        reveal_strlit("8");
        reveal_strlit("9");
    }
    if d == 0 {
        s.append("0");
    } else if d == 1 {
        s.append("1");
    } else if d == 2 {
        s.append("2");
    } else if d == 3 {
        s.append("3");
    } else if d == 4 {
        s.append("4");
    } else if d == 5 {
        s.append("5");
    } else if d == 6 {
        s.append("6");
    } else if d == 7 {
        s.append("7");
    } else if d == 8 {
        s.append("8");
    } else {
        s.append("9");
    }
    proof {
        assert(s@ =~= old(s)@ + seq![digit_char(d as nat)]);
    }
}

/// Render `n` in decimal.
fn u32_to_string(n: u32) -> (r: String)
    ensures
        r@ == dec_str(n as nat),
{
    let mut digits: Vec<u32> = Vec::new();
    let mut m = n;
    loop
        invariant_except_break
            dec_str(n as nat) == dec_str(m as nat) + rev_chars(digits@),
        invariant
            forall|k: int| 0 <= k < digits@.len() ==> #[trigger] digits@[k] < 10,
        ensures
            digits@.len() > 0,
            dec_str(n as nat) == rev_chars(digits@),
            forall|k: int| 0 <= k < digits@.len() ==> #[trigger] digits@[k] < 10,
        decreases m,
    {
        let ghost digits_pre = digits@;
        let d = m % 10;
        digits.push(d);
        proof {
            assert(digits@.drop_last() =~= digits_pre);
            assert(rev_chars(digits@) == seq![digit_char(d as nat)] + rev_chars(digits_pre));
        }
        if m < 10 {
            proof {
                assert(dec_str(m as nat) == seq![digit_char(m as nat)]);
                assert(dec_str(m as nat) + rev_chars(digits_pre) =~= rev_chars(digits@));
            }
            break;
        }
        proof {
            assert(dec_str(m as nat) == dec_str((m / 10) as nat) + seq![digit_char((m % 10) as nat)]);
            assert(dec_str((m / 10) as nat) + (seq![digit_char(d as nat)] + rev_chars(digits_pre))
                =~= (dec_str((m / 10) as nat) + seq![digit_char(d as nat)]) + rev_chars(digits_pre));
            assert(dec_str((m / 10) as nat) + rev_chars(digits@) =~= dec_str(m as nat) + rev_chars(
                digits_pre,
            ));
        }
        m = m / 10;
    }
    let mut out = String::new();
    let mut i = digits.len();
    proof {
        assert(digits@.skip(i as int) =~= Seq::<u32>::empty());
    }
    while i > 0
        invariant
            i <= digits@.len(),
            out@ == rev_chars(digits@.skip(i as int)),
            forall|k: int| 0 <= k < digits@.len() ==> #[trigger] digits@[k] < 10,
        decreases i,
    {
        i = i - 1;
        push_digit(&mut out, digits[i]);
        proof {
            let v = digits@.skip(i as int);
            assert(v.len() > 0);
            assert(v.first() == digits@[i as int]);
            assert(v.drop_first() =~= digits@.skip(i as int + 1));
            lemma_rev_chars_first(v);
        }
    }
    proof {
        assert(digits@.skip(0) =~= digits@);
    }
    out
}

// ---------------------------------------------------------------------------
// The evaluation model
// ---------------------------------------------------------------------------

/// How a render can fail at run time.
pub ghost enum RtErrM {
    UnknownProperty,
    NotTraversable,
    NotRenderable,
}

/// The outcome of evaluating statements: rendered text, a runtime failure,
/// or `Host` as soon as a host-supplied function decides what comes next —
/// from there on nothing is promised of the output.
pub ghost enum EvalOut {
    Done(Seq<char>),
    Fail(RtErrM),
    Host,
}

/// Walk the remaining segments from a resolved value: only objects can be
/// traversed, and every key must be present.
pub open spec fn resolve_from<F>(v: ValueModel<F>, segs: Seq<Seq<char>>, i: int) -> Result<
    ValueModel<F>,
    RtErrM,
>
    decreases segs.len() - i,
{
    if i >= segs.len() {
        Ok(v)
    } else {
        match v {
            ValueModel::Object(m) => {
                if m.contains_key(segs[i]) {
                    resolve_from(m[segs[i]], segs, i + 1)
                } else {
                    Err(RtErrM::UnknownProperty)
                }
            },
            _ => Err(RtErrM::NotTraversable),
        }
    }
}

/// Resolve a dotted chain against the context, strictly left to right.
pub open spec fn resolve_path<F>(
    ctx: Map<Seq<char>, ValueModel<F>>,
    segs: Seq<Seq<char>>,
) -> Result<ValueModel<F>, RtErrM> {
    if segs.len() == 0 {
        Err(RtErrM::UnknownProperty)
    } else if ctx.contains_key(segs[0]) {
        resolve_from(ctx[segs[0]], segs, 1)
    } else {
        Err(RtErrM::UnknownProperty)
    }
}

/// What one tag renders: nothing for an absent or literal subject; the
/// textual form of a resolved string or integer; `Host` for a resolved
/// function; a failure otherwise.
pub open spec fn eval_expr<F>(e: crate::parser::ExprM, ctx: Map<Seq<char>, ValueModel<F>>) -> EvalOut {
    match e.property {
        None => EvalOut::Done(Seq::empty()),
        Some(PValM::Property(p)) => match resolve_path(ctx, p.segs) {
            Err(k) => EvalOut::Fail(k),
            Ok(ValueModel::String(s)) => EvalOut::Done(s),
            Ok(ValueModel::Int(n)) => EvalOut::Done(dec_str(n as nat)),
            Ok(ValueModel::Object(_)) => EvalOut::Fail(RtErrM::NotRenderable),
            Ok(ValueModel::Function(_)) => EvalOut::Host,
        },
        Some(_) => EvalOut::Done(Seq::empty()),
    }
}

/// The text rendered before the first host call (or failure): the
/// concatenation of what each statement renders, up to the first one whose
/// outcome a host decides.
pub open spec fn eval_prefix<F>(stats: Seq<StatM>, ctx: Map<Seq<char>, ValueModel<F>>) -> Seq<
    char,
>
    decreases stats.len(),
{
    if stats.len() == 0 {
        Seq::empty()
    } else {
        let first = match stats[0] {
            StatM::Text { val, .. } => EvalOut::Done(val),
            StatM::Tag { expr, .. } => eval_expr(expr, ctx),
        };
        match first {
            EvalOut::Done(s) => s + eval_prefix(stats.drop_first(), ctx),
            _ => Seq::empty(),
        }
    }
}

/// A prefix survives appending to the larger sequence.
proof fn lemma_prefix_extend(a: Seq<char>, b: Seq<char>, c: Seq<char>)
    requires
        a.is_prefix_of(b),
    ensures
        a.is_prefix_of(b + c),
{
    assert(a =~= (b + c).subrange(0, a.len() as int));
}

pub open spec fn out_prepend(pre: Seq<char>, o: EvalOut) -> EvalOut {
    match o {
        EvalOut::Done(s) => EvalOut::Done(pre + s),
        EvalOut::Fail(k) => EvalOut::Fail(k),
        EvalOut::Host => EvalOut::Host,
    }
}

/// Evaluate statements in order, concatenating what each renders, stopping
/// at the first failure or host call.
pub open spec fn eval_stats<F>(stats: Seq<StatM>, ctx: Map<Seq<char>, ValueModel<F>>) -> EvalOut
    decreases stats.len(),
{
    if stats.len() == 0 {
        EvalOut::Done(Seq::empty())
    } else {
        let first = match stats[0] {
            StatM::Text { val, .. } => EvalOut::Done(val),
            StatM::Tag { expr, .. } => eval_expr(expr, ctx),
        };
        match first {
            EvalOut::Done(s) => out_prepend(s, eval_stats(stats.drop_first(), ctx)),
            EvalOut::Fail(k) => EvalOut::Fail(k),
            EvalOut::Host => EvalOut::Host,
        }
    }
}

/// The values of an argument list: literals verbatim, properties resolved
/// against the context.
pub open spec fn eval_args<F>(
    args: Seq<ArgM>,
    ctx: Map<Seq<char>, ValueModel<F>>,
) -> Result<Seq<ValueModel<F>>, RtErrM>
    decreases args.len(),
{
    if args.len() == 0 {
        Ok(Seq::empty())
    } else {
        let first: Result<ValueModel<F>, RtErrM> = match args[0].val {
            PValM::Str { val, .. } => Ok(ValueModel::String(val)),
            PValM::Int { val, .. } => Ok(ValueModel::Int(val)),
            PValM::Property(p) => resolve_path(ctx, p.segs),
        };
        match first {
            Err(k) => Err(k),
            Ok(v) => match eval_args(args.drop_first(), ctx) {
                Err(k) => Err(k),
                Ok(rest) => Ok(seq![v] + rest),
            },
        }
    }
}

// ---------------------------------------------------------------------------
// The executable evaluator
// ---------------------------------------------------------------------------

/// The tree-walking evaluator over a host-supplied context.
pub struct Runtime<F> {
    pub global: Context<F>,
}

/// Deep-copy a value; the model is preserved exactly.
fn value_clone<F: Copy>(v: &Value<F>) -> (r: Value<F>)
    ensures
        value_model(r) == value_model(*v),
    decreases *v,
{
    match v {
        Value::Int(n) => Value::Int(*n),
        Value::String(s) => Value::String(s.clone()),
        Value::Function(f) => Value::Function(*f),
        Value::Object(om) => Value::Object(object_map_clone(om)),
    }
}

/// Deep-copy an object map; the model is preserved exactly.
fn object_map_clone<F: Copy>(om: &ObjectMap<F>) -> (r: ObjectMap<F>)
    ensures
        r@ == om@,
    decreases *om,
{
    let mut entries: Vec<(String, Value<F>)> = Vec::new();
    let n = om.entries.len();
    let mut k: usize = 0;
    while k < n
        invariant
            k <= n,
            n == om.entries@.len(),
            entries@.len() == k,
            forall|j: int|
                0 <= j < k ==> #[trigger] entries@[j].0@ == om.entries@[j].0@ && value_model(
                    entries@[j].1,
                ) == value_model(om.entries@[j].1),
        decreases n - k,
    {
        proof {
            assert(decreases_to!(om.entries => om.entries@[k as int]));
            assert(decreases_to!(*om => om.entries@[k as int].1));
        }
        let name = om.entries[k].0.clone();
        let val = value_clone(&om.entries[k].1);
        entries.push((name, val));
        k = k + 1;
    }
    proof {
        lemma_object_model_congruent(entries@, om.entries@);
    }
    ObjectMap { entries }
}

/// Entry lists equal key-by-key and model-by-model have the same object
/// model.
proof fn lemma_object_model_congruent<F>(a: Seq<(String, Value<F>)>, b: Seq<(String, Value<F>)>)
    requires
        a.len() == b.len(),
        forall|j: int|
            0 <= j < a.len() ==> #[trigger] a[j].0@ == b[j].0@ && value_model(a[j].1)
                == value_model(b[j].1),
    ensures
        object_model(a) == object_model(b),
    decreases a.len(),
{
    if a.len() > 0 {
        lemma_object_model_congruent(a.drop_last(), b.drop_last());
    }
}

/// Render what a host call produced: the defined placeholder for no value,
/// the textual form of a string or integer, a failure for anything that
/// cannot be rendered.
pub fn render_call_result<F>(res: &Option<Value<F>>) -> (r: Result<String, String>)
    ensures
        match res {
            None => r matches Ok(s) && s@ == "(NONE)"@,
            Some(Value::Int(n)) => r matches Ok(s) && s@ == dec_str(*n as nat),
            Some(Value::String(st)) => r matches Ok(s) && s@ == st@,
            Some(Value::Object(_)) => r is Err,
            Some(Value::Function(_)) => r is Err,
        },
{
    match res {
        None => Ok("(NONE)".to_owned()),
        Some(Value::Int(n)) => Ok(u32_to_string(*n)),
        Some(Value::String(st)) => Ok(st.clone()),
        Some(Value::Object(_)) => Err("a call result of this kind cannot be rendered".to_owned()),
        Some(Value::Function(_)) => Err("a call result of this kind cannot be rendered".to_owned()),
    }
}

impl<F: HostFn> Runtime<F> {
    pub fn new(context: Context<F>) -> (r: Self)
        ensures
            r.global == context,
    {
        Runtime { global: context }
    }

    /// Resolve a dotted chain against the context, strictly left to right.
    fn property_type_find_value<'a>(&'a self, stack: &Vec<String>) -> (r: Result<
        &'a Value<F>,
        String,
    >)
        ensures
            match resolve_path(self.global@, segs_of(stack@)) {
                Ok(vm) => r matches Ok(v) && value_model(*v) == vm,
                Err(_) => r is Err,
            },
    {
        let ghost segs = segs_of(stack@);
        if stack.len() == 0 {
            return Err("unknown property".to_owned());
        }
        let first = match self.global.get(stack[0].as_str()) {
            Some(v) => v,
            None => {
                return Err("unknown property".to_owned());
            },
        };
        let mut current = first;
        let mut i: usize = 1;
        loop
            invariant
                1 <= i <= stack@.len(),
                segs == segs_of(stack@),
                segs.len() == stack@.len(),
                resolve_path(self.global@, segs) == resolve_from(value_model(*current), segs, i as int),
            ensures
                i == stack@.len(),
                resolve_path(self.global@, segs) == resolve_from(value_model(*current), segs, i as int),
            decreases stack@.len() - i,
        {
            if i >= stack.len() {
                break;
            }
            match current {
                Value::Object(om) => {
                    match om.get(stack[i].as_str()) {
                        Some(v) => {
                            current = v;
                            i = i + 1;
                        },
                        None => {
                            return Err("unknown property".to_owned());
                        },
                    }
                },
                Value::String(_) => {
                    return Err("cannot traverse into a non-object value".to_owned());
                },
                Value::Int(_) => {
                    return Err("cannot traverse into a non-object value".to_owned());
                },
                Value::Function(_) => {
                    return Err("cannot traverse into a non-object value".to_owned());
                },
            }
        }
        Ok(current)
    }

    /// Evaluate the argument list of a call: literals verbatim, property
    /// chains resolved.
    fn collect_arguments1(&self, arguments_pre: &Option<Vec<Arg>>) -> (r: Result<
        Vec<Value<F>>,
        String,
    >)
        ensures
            ({
                let am = match arguments_pre {
                    Some(v) => args_of_exec(v@),
                    None => Seq::empty(),
                };
                match eval_args(am, self.global@) {
                    Ok(vs) => r matches Ok(a) && a@.map_values(|x: Value<F>| value_model(x)) == vs,
                    Err(_) => r is Err,
                }
            }),
    {
        let mut args: Vec<Value<F>> = Vec::new();
        let arguments = match arguments_pre {
            None => {
                proof {
                    assert(args@.map_values(|x: Value<F>| value_model(x)) =~= Seq::<
                        ValueModel<F>,
                    >::empty());
                }
                return Ok(args);
            },
            Some(v) => v,
        };
        let ghost am = args_of_exec(arguments@);
        let n = arguments.len();
        let mut k: usize = 0;
        proof {
            assert(args@.map_values(|x: Value<F>| value_model(x)) =~= Seq::<ValueModel<F>>::empty());
            assert(am.skip(0) =~= am);
            let rest_out = eval_args(am, self.global@);
            if rest_out is Ok {
                assert(Seq::<ValueModel<F>>::empty() + rest_out->Ok_0 =~= rest_out->Ok_0);
            }
        }
        loop
            invariant
                k <= n,
                n == arguments@.len(),
                arguments_pre matches Some(v) && v@ == arguments@,
                am == args_of_exec(arguments@),
                am.len() == n,
                ({
                    let done = args@.map_values(|x: Value<F>| value_model(x));
                    match eval_args(am.skip(k as int), self.global@) {
                        Ok(rest) => eval_args(am, self.global@) == Ok::<_, RtErrM>(done + rest),
                        Err(e) => eval_args(am, self.global@) == Err::<Seq<ValueModel<F>>, _>(e),
                    }
                }),
            ensures
                k == n,
                eval_args(am, self.global@) == Ok::<_, RtErrM>(
                    args@.map_values(|x: Value<F>| value_model(x)),
                ),
            decreases n - k,
        {
            if k >= n {
                proof {
                    let done = args@.map_values(|x: Value<F>| value_model(x));
                    assert(am.skip(n as int) =~= Seq::<ArgM>::empty());
                    assert(done + Seq::<ValueModel<F>>::empty() =~= done);
                }
                break;
            }
            let ghost done_pre = args@.map_values(|x: Value<F>| value_model(x));
            let Arg::Single(data) = &arguments[k];
            proof {
                assert(am[k as int] == arguments@[k as int]@);
                assert(am.skip(k as int).first() == am[k as int]);
                assert(am.skip(k as int).drop_first() =~= am.skip(k as int + 1));
            }
            let v: Value<F> = match &data.value {
                PValue::String { value, .. } => Value::String(value.clone()),
                PValue::Int { value, .. } => Value::Int(*value),
                PValue::Property(property) => {
                    match self.property_type_find_value(&property.value) {
                        Ok(found) => value_clone(found),
                        Err(e) => {
                            proof {
                                assert(eval_args(am.skip(k as int), self.global@) is Err);
                            }
                            return Err(e);
                        },
                    }
                },
            };
            let ghost vm = value_model(v);
            args.push(v);
            proof {
                assert(args@.map_values(|x: Value<F>| value_model(x)) =~= done_pre.push(vm));
                let rest_out = eval_args(am.skip(k as int + 1), self.global@);
                if rest_out is Ok {
                    assert(done_pre + (seq![vm] + rest_out->Ok_0) =~= done_pre.push(vm)
                        + rest_out->Ok_0);
                }
            }
            k = k + 1;
        }
        Ok(args)
    }

    /// Render one tag expression into `buffer`.
    fn process_expression(&self, expression: &Expression, buffer: &mut String) -> (r: Result<
        (),
        String,
    >)
        ensures
            match eval_expr(expression@, self.global@) {
                EvalOut::Done(s) => r is Ok && final(buffer)@ == old(buffer)@ + s,
                EvalOut::Fail(_) => r is Err,
                EvalOut::Host => r is Ok ==> old(buffer)@.is_prefix_of(final(buffer)@),
            },
    {
        let prop = match &expression.property {
            None => {
                proof {
                    assert(buffer@ + Seq::<char>::empty() =~= buffer@);
                }
                return Ok(());
            },
            Some(p) => p,
        };
        let segs: &Vec<String> = match prop {
            PValue::Property(property) => &property.value,
            _ => {
                proof {
                    assert(buffer@ + Seq::<char>::empty() =~= buffer@);
                }
                return Ok(());
            },
        };
        let resolved: &Value<F> = match self.property_type_find_value(segs) {
            Ok(v) => v,
            Err(e) => {
                return Err(e);
            },
        };
        match resolved {
            Value::String(s) => {
                buffer.append(s.as_str());
                Ok(())
            },
            Value::Int(n) => {
                let t = u32_to_string(*n);
                buffer.append(t.as_str());
                Ok(())
            },
            Value::Object(_) => Err("cannot render an object value".to_owned()),
            Value::Function(f) => {
                let func = *f;
                let args = match self.collect_arguments1(&expression.arguments) {
                    Ok(a) => a,
                    Err(e) => {
                        return Err(e);
                    },
                };
                let fn_results = func.host_call(args);
                match render_call_result(&fn_results) {
                    Ok(s) => {
                        let ghost pre = buffer@;
                        buffer.append(s.as_str());
                        proof {
                            assert(pre =~= (pre + s@).subrange(0, pre.len() as int));
                        }
                        Ok(())
                    },
                    Err(e) => Err(e),
                }
            },
        }
    }

    /// Render the statements in order into one string, stopping at the first
    /// failure.
    fn process_body(&self, body: &Vec<Stat>) -> (r: Result<String, String>)
        ensures
            match eval_stats(stats_of(body@), self.global@) {
                EvalOut::Done(out) => r matches Ok(o) && o@ == out,
                EvalOut::Fail(_) => r is Err,
                EvalOut::Host => r matches Ok(o) ==> eval_prefix(
                    stats_of(body@),
                    self.global@,
                ).is_prefix_of(o@),
            },
    {
        let ghost stats = stats_of(body@);
        let ghost ctx = self.global@;
        let mut buffer = String::new();
        let n = body.len();
        let mut idx: usize = 0;
        proof {
            assert(stats.skip(0) =~= stats);
            let whole = eval_stats(stats, ctx);
            if whole is Done {
                assert(buffer@ + whole->Done_0 =~= whole->Done_0);
            }
            assert(buffer@ + eval_prefix(stats, ctx) =~= eval_prefix(stats, ctx));
        }
        loop
            invariant
                idx <= n,
                n == body@.len(),
                stats == stats_of(body@),
                stats.len() == n,
                ctx == self.global@,
                (eval_stats(stats, ctx) == out_prepend(
                    buffer@,
                    eval_stats(stats.skip(idx as int), ctx),
                ) && eval_prefix(stats, ctx) == buffer@ + eval_prefix(
                    stats.skip(idx as int),
                    ctx,
                )) || (eval_stats(stats, ctx) is Host && eval_prefix(stats, ctx).is_prefix_of(
                    buffer@,
                )),
            ensures
                idx == n,
                (eval_stats(stats, ctx) == EvalOut::Done(buffer@)) || (eval_stats(stats, ctx)
                    is Host && eval_prefix(stats, ctx).is_prefix_of(buffer@)),
            decreases n - idx,
        {
            if idx >= n {
                proof {
                    assert(stats.skip(n as int) =~= Seq::<StatM>::empty());
                    assert(buffer@ + Seq::<char>::empty() =~= buffer@);
                }
                break;
            }
            let ghost in_phase_one = eval_stats(stats, ctx) == out_prepend(
                buffer@,
                eval_stats(stats.skip(idx as int), ctx),
            ) && eval_prefix(stats, ctx) == buffer@ + eval_prefix(stats.skip(idx as int), ctx);
            let ghost buf_pre = buffer@;
            let ghost suffix = stats.skip(idx as int);
            proof {
                assert(suffix[0] == stats[idx as int]);
                assert(stats[idx as int] == body@[idx as int]@);
                assert(suffix.drop_first() =~= stats.skip(idx as int + 1));
            }
            match &body[idx] {
                Stat::Text { value, .. } => {
                    buffer.append(value.as_str());
                    proof {
                        if in_phase_one {
                            let rest = eval_stats(stats.skip(idx as int + 1), ctx);
                            if rest is Done {
                                assert(buf_pre + (value@ + rest->Done_0) =~= (buf_pre + value@)
                                    + rest->Done_0);
                            }
                            assert(buf_pre + (value@ + eval_prefix(
                                stats.skip(idx as int + 1),
                                ctx,
                            )) =~= (buf_pre + value@) + eval_prefix(
                                stats.skip(idx as int + 1),
                                ctx,
                            ));
                        } else {
                            lemma_prefix_extend(eval_prefix(stats, ctx), buf_pre, value@);
                        }
                    }
                },
                Stat::Tag { value, .. } => {
                    match self.process_expression(value, &mut buffer) {
                        Ok(()) => {
                            proof {
                                let e = eval_expr(value@, ctx);
                                if in_phase_one {
                                    if e is Done {
                                        let rest = eval_stats(stats.skip(idx as int + 1), ctx);
                                        if rest is Done {
                                            assert(buf_pre + (e->Done_0 + rest->Done_0) =~= (
                                            buf_pre + e->Done_0) + rest->Done_0);
                                        }
                                        assert(buf_pre + (e->Done_0 + eval_prefix(
                                            stats.skip(idx as int + 1),
                                            ctx,
                                        )) =~= (buf_pre + e->Done_0) + eval_prefix(
                                            stats.skip(idx as int + 1),
                                            ctx,
                                        ));
                                    } else {
                                        // the host decided here: what was
                                        // rendered so far is the pinned prefix
                                        assert(e is Host);
                                        assert(eval_prefix(stats.skip(idx as int, ), ctx)
                                            =~= Seq::<char>::empty());
                                        assert(buf_pre + Seq::<char>::empty() =~= buf_pre);
                                        assert(eval_prefix(stats, ctx) == buf_pre);
                                        assert(buf_pre.is_prefix_of(buffer@));
                                    }
                                } else {
                                    if e is Done {
                                        lemma_prefix_extend(
                                            eval_prefix(stats, ctx),
                                            buf_pre,
                                            e->Done_0,
                                        );
                                    } else {
                                        assert(eval_prefix(stats, ctx).is_prefix_of(buf_pre));
                                        assert(buf_pre.is_prefix_of(buffer@));
                                        assert(eval_prefix(stats, ctx) =~= buffer@.subrange(
                                            0,
                                            eval_prefix(stats, ctx).len() as int,
                                        ));
                                    }
                                }
                            }
                        },
                        Err(e) => {
                            return Err(e);
                        },
                    }
                },
            }
            idx = idx + 1;
        }
        Ok(buffer)
    }

    /// Parse and render `program` against the context. Scanner failures and
    /// parse findings refuse the render; runtime failures stop it.
    pub fn execute(&self, program: &str) -> (r: Result<String, String>)
        ensures
            ({
                let s = program@;
                match scan_spec(s) {
                    Err(e) => r matches Err(msg) && msg@ == crate::lex::lex_err_msg(e),
                    Ok(ts) => {
                        let pr = parse_spec(ts);
                        if pr.1.len() > 0 {
                            r is Err
                        } else {
                            match eval_stats(pr.0, self.global@) {
                                EvalOut::Done(out) => r matches Ok(o) && o@ == out,
                                EvalOut::Fail(_) => r is Err,
                                EvalOut::Host => r matches Ok(o) ==> eval_prefix(
                                    pr.0,
                                    self.global@,
                                ).is_prefix_of(o@),
                            }
                        }
                    },
                }
            }),
    {
        let mut tokenizer = Lexer::from_source(program);
        match tokenizer.scan_tokens() {
            Err(e) => {
                return Err(e);
            },
            Ok(()) => {},
        }
        let mut parser = Parser::from_lexer(tokenizer);
        proof {
            assert(parser.toks() =~= scan_spec(program@)->Ok_0);
        }
        let parse_results = parser.parse();
        if parse_results.errors.len() > 0 {
            return Err(parse_results.errors[0].message.clone());
        }
        proof {
            assert(parse_spec(parser.toks()).1.len() == 0);
        }
        self.process_body(&parse_results.ast.body)
    }
}

/// The argument models of an executable argument list.
pub open spec fn args_of_exec(v: Seq<Arg>) -> Seq<ArgM> {
    v.map_values(|a: Arg| a@)
}

// ---------------------------------------------------------------------------
// Law: a well-formed property tag renders its bound string
// ---------------------------------------------------------------------------

/// For every source that tokenizes to literal text followed by a well-formed
/// `{name.sub}` tag, and every context binding `name` to an object whose
/// `sub` is the string `v`: the parse has no findings, and evaluation renders
/// the surrounding text verbatim with `v` in the tag's place.
pub proof fn lemma_simple_property_renders<F>(
    toks: Seq<TokenM>,
    t: Seq<char>,
    name: Seq<char>,
    sub: Seq<char>,
    t2: Seq<char>,
    v: Seq<char>,
    ctx: Map<Seq<char>, ValueModel<F>>,
    m: Map<Seq<char>, ValueModel<F>>,
)
    requires
        toks.len() == if t2.len() == 0 {
            6int
        } else {
            7int
        },
        toks[0].tok == TokM::Text(t),
        toks[1].tok is OpenTag,
        toks[2].tok == TokM::Ident(name),
        toks[3].tok is Dot,
        toks[4].tok == TokM::Ident(sub),
        toks[5].tok is CloseTag,
        t2.len() > 0 ==> toks[6].tok == TokM::Text(t2),
        ctx.contains_key(name),
        ctx[name] == ValueModel::<F>::Object(m),
        m.contains_key(sub),
        m[sub] == ValueModel::<F>::String(v),
    ensures
        parse_spec(toks).1 == Seq::<crate::parser::PErrM>::empty(),
        eval_stats(parse_spec(toks).0, ctx) == EvalOut::Done(t + v + t2),
{
    let e0: Seq<crate::parser::PErrM> = Seq::empty();
    assert(crate::parser::ws_run(toks, 0) == 0);
    assert(crate::parser::ws_run(toks, 1) == 0);
    assert(crate::parser::ws_run(toks, 2) == 0);
    assert(crate::parser::ws_run(toks, 3) == 0);
    assert(crate::parser::ws_run(toks, 4) == 0);
    assert(crate::parser::ws_run(toks, 5) == 0);
    if t2.len() > 0 {
        assert(crate::parser::ws_run(toks, 6) == 0);
    }
    // the property `name.sub`
    let segs2 = seq![name, sub];
    let loop2 = crate::parser::parse_prop_loop(toks, 5, segs2, false, toks[4].end);
    assert(loop2 == (segs2, e0, 5int, toks[4].end));
    let loop1 = crate::parser::parse_prop_loop(toks, 4, seq![name], true, toks[2].end);
    assert(seq![name].push(sub) =~= segs2);
    assert(loop1 == (segs2, e0, 5int, toks[4].end));
    let p = crate::parser::parse_property(toks, 2);
    assert(e0 + e0 =~= e0);
    let pm = crate::parser::PropM { segs: segs2, start: toks[2].start, end: toks[4].end };
    assert(p == (Some(pm), e0, 5int));
    // no arguments, then the closing brace
    let a = crate::parser::parse_arguments(toks, 5);
    assert(a == (None::<Seq<ArgM>>, e0, 5int));
    let e = crate::parser::parse_expression(toks, 2);
    let em = crate::parser::ExprM {
        property: Some(crate::parser::PValM::Property(pm)),
        arguments: None,
    };
    assert(e == (em, e0, 6int, toks[5].end));
    // the statement list: the text, the tag, and the trailing text if any
    let tail_stats: Seq<StatM> = if t2.len() == 0 {
        Seq::<StatM>::empty()
    } else {
        seq![StatM::Text { val: t2, start: toks[6].start, end: toks[6].end }]
    };
    if t2.len() > 0 {
        assert(crate::parser::parse_body(toks, 7) == (Seq::<StatM>::empty(), e0));
        assert(seq![StatM::Text { val: t2, start: toks[6].start, end: toks[6].end }] + Seq::<
            StatM,
        >::empty() =~= tail_stats);
    }
    assert(crate::parser::parse_body(toks, 6) == (tail_stats, e0));
    let st_tag = StatM::Tag { start: toks[1].start, end: toks[5].end, expr: em };
    let body1 = crate::parser::parse_body(toks, 1);
    assert(body1 == (seq![st_tag] + tail_stats, e0));
    let st_text = StatM::Text { val: t, start: toks[0].start, end: toks[0].end };
    let body0 = crate::parser::parse_body(toks, 0);
    let stats = seq![st_text] + (seq![st_tag] + tail_stats);
    assert(body0 == (stats, e0));
    // evaluation: resolve `name` then `sub`, strictly in that order
    assert(resolve_from(ValueModel::<F>::String(v), segs2, 2) == Ok::<ValueModel<F>, RtErrM>(
        ValueModel::String(v),
    ));
    assert(resolve_from(ctx[name], segs2, 1) == Ok::<ValueModel<F>, RtErrM>(
        ValueModel::String(v),
    ));
    assert(resolve_path(ctx, segs2) == Ok::<ValueModel<F>, RtErrM>(ValueModel::String(v)));
    assert(eval_expr(em, ctx) == EvalOut::Done(v));
    // concatenate right to left
    assert(eval_stats(Seq::<StatM>::empty(), ctx) == EvalOut::Done(Seq::<char>::empty()));
    if t2.len() > 0 {
        assert(tail_stats.drop_first() =~= Seq::<StatM>::empty());
    } else {
        assert(t2 + Seq::<char>::empty() =~= Seq::<char>::empty());
    }
    assert(eval_stats(tail_stats, ctx) == EvalOut::Done(t2 + Seq::<char>::empty()));
    let mid = seq![st_tag] + tail_stats;
    assert(mid[0] == st_tag);
    assert(mid.drop_first() =~= tail_stats);
    assert(eval_stats(mid, ctx) == EvalOut::Done(v + (t2 + Seq::<char>::empty())));
    assert(stats[0] == st_text);
    assert(stats.drop_first() =~= mid);
    assert(eval_stats(stats, ctx) == EvalOut::Done(t + (v + (t2 + Seq::<char>::empty()))));
    assert(t + (v + (t2 + Seq::<char>::empty())) =~= t + v + t2);
}


/// The same law for the whole pipeline: a source of literal text followed by
/// `{name.sub}` and trailing literal text scans, parses without findings,
/// and renders the surrounding text verbatim with the bound string `v` in
/// the tag's place. Together with `execute`'s contract this pins `execute`
/// on every such source.
pub proof fn lemma_pipeline_simple_property<F>(
    t: Seq<char>,
    name: Seq<char>,
    sub: Seq<char>,
    t2: Seq<char>,
    v: Seq<char>,
    ctx: Map<Seq<char>, ValueModel<F>>,
    m: Map<Seq<char>, ValueModel<F>>,
)
    requires
        t.len() > 0,
        name.len() > 0,
        sub.len() > 0,
        forall|k: int|
            0 <= k < t.len() ==> !(#[trigger] t[k] == '{' || t[k] == '}' || t[k] == '\n'),
        !crate::lex::is_ws_char(t[0]),
        forall|k: int| 0 <= k < name.len() ==> crate::lex::is_alpha_char(#[trigger] name[k]),
        forall|k: int| 0 <= k < sub.len() ==> crate::lex::is_alpha_char(#[trigger] sub[k]),
        forall|k: int|
            0 <= k < t2.len() ==> !(#[trigger] t2[k] == '{' || t2[k] == '}' || t2[k] == '\n'),
        t2.len() > 0 ==> !crate::lex::is_ws_char(t2[0]),
        ctx.contains_key(name),
        ctx[name] == ValueModel::<F>::Object(m),
        m.contains_key(sub),
        m[sub] == ValueModel::<F>::String(v),
    ensures
        ({
            let s = t + seq!['{'] + name + seq!['.'] + sub + seq!['}'] + t2;
            &&& scan_spec(s) is Ok
            &&& parse_spec(scan_spec(s)->Ok_0).1 == Seq::<crate::parser::PErrM>::empty()
            &&& eval_stats(parse_spec(scan_spec(s)->Ok_0).0, ctx) == EvalOut::Done(t + v + t2)
        }),
{
    crate::lex::lemma_scan_simple_tag(t, name, sub, t2);
    let s = t + seq!['{'] + name + seq!['.'] + sub + seq!['}'] + t2;
    let toks = scan_spec(s)->Ok_0;
    assert(toks.len() == if t2.len() == 0 {
        6int
    } else {
        7int
    });
    assert(toks[0].tok == TokM::Text(t));
    assert(toks[1].tok is OpenTag);
    assert(toks[2].tok == TokM::Ident(name));
    assert(toks[3].tok is Dot);
    assert(toks[4].tok == TokM::Ident(sub));
    assert(toks[5].tok is CloseTag);
    if t2.len() > 0 {
        assert(toks[6].tok == TokM::Text(t2));
    }
    lemma_simple_property_renders(toks, t, name, sub, t2, v, ctx, m);
}

} // verus!
