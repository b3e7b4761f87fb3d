//! The service-definition compiler.
//!
//! From one declared interface — operations with their receivers, arguments and
//! results — one pass derives the three artifacts that must agree with each
//! other: the request message schema (one variant per operation), the client stub
//! (one method per operation, building that variant) and the dispatch table (one
//! arm per variant, calling that operation).
use crate::error::Error;
use crate::wire::{decode_u32, encode_u32, le_bytes, le_value, lemma_u32_round_trip};
use vstd::prelude::*;
use vstd::string::StringExecFns;

verus! {

/// How an operation receives the service value.
#[derive(Debug, Clone, Copy, PartialEq, Eq)]
pub enum Receiver {
    /// No receiver: an associated function.
    Absent,
    /// `self` taken by value.
    Owned,
    /// `&self`.
    Shared,
    /// `&mut self`.
    Exclusive,
}

/// The pattern an argument is bound by.
#[derive(Debug)]
pub enum Pattern {
    /// A plain name.
    Ident(String),
    /// Anything else (a tuple, a struct pattern, `_`); the compiler refuses it.
    Other,
}

/// One declared argument.
#[derive(Debug)]
pub struct ArgDecl {
    pub pattern: Pattern,
    /// The argument's type, as written.
    pub ty: String,
}

/// One declared operation.
#[derive(Debug)]
pub struct OperationDecl {
    pub name: String,
    pub receiver: Receiver,
    pub args: Vec<ArgDecl>,
    /// The result type as written; none means the unit type.
    pub output: Option<String>,
    /// Whether the operation has type parameters of its own.
    pub generic: bool,
}

/// A declared service interface.
#[derive(Debug)]
pub struct ServiceDecl {
    pub name: String,
    pub operations: Vec<OperationDecl>,
}

/// A named, typed field of a request variant, and the matching argument of a
/// client method.
#[derive(Debug)]
pub struct Field {
    pub name: String,
    pub ty: String,
}

/// One case of the request message.
#[derive(Debug)]
pub struct RequestVariant {
    pub name: String,
    pub fields: Vec<Field>,
}

/// The request message: a union with one case per operation.
#[derive(Debug)]
pub struct RequestSchema {
    pub name: String,
    pub variants: Vec<RequestVariant>,
}

/// A method of the client stub: it builds request variant `variant` from its
/// arguments, sends it, and returns the decoded reply.
#[derive(Debug)]
pub struct ClientMethod {
    pub name: String,
    pub args: Vec<Field>,
    pub output: String,
    pub variant: usize,
}

/// The client stub: a type holding one transport with one method per operation.
#[derive(Debug)]
pub struct ClientStub {
    pub name: String,
    pub methods: Vec<ClientMethod>,
}

/// One arm of the dispatch method: a request of case `variant` is taken apart
/// into `bindings`, operation `method` is called with them (after the service
/// value when `passes_receiver`), and its result is sent back.
#[derive(Debug)]
pub struct DispatchArm {
    pub variant: usize,
    pub method: String,
    pub bindings: Vec<String>,
    pub passes_receiver: bool,
}

/// The dispatch method added to the interface.
#[derive(Debug)]
pub struct DispatchTable {
    /// Whether the method takes `&mut self` (some operation does) rather than `&self`.
    pub exclusive: bool,
    pub arms: Vec<DispatchArm>,
}

/// What the compiler derives from a declaration.
#[derive(Debug)]
pub struct ServiceArtifacts {
    pub request: RequestSchema,
    pub client: ClientStub,
    pub dispatch: DispatchTable,
}

/// Why a declaration cannot be compiled; each names the operation at fault.
#[derive(Debug, PartialEq, Eq)]
pub enum CompileError {
    /// The operation has type parameters of its own: it has no fixed wire form.
    GenericOperation(String),
    /// An argument of the operation is bound by something other than a plain name.
    UnsupportedPattern(String),
}

/// The class-case spelling of an identifier (`magic_const` becomes `MagicConst`),
/// as inflector computes it.
pub uninterp spec fn class_case_of(s: Seq<char>) -> Seq<char>;

/// Relies on `inflector::cases::classcase::to_class_case`: the class-case spelling
/// of its argument, which depends on the text alone.
#[verifier::external_body]
fn to_class_case(s: &str) -> (r: String)
    ensures
        r@ == class_case_of(s@),
{
    inflector::cases::classcase::to_class_case(s)
}

/// The name an argument binds; nothing for a pattern the compiler refuses.
pub open spec fn arg_name(a: ArgDecl) -> Seq<char> {
    match a.pattern {
        Pattern::Ident(n) => n@,
        Pattern::Other => Seq::empty(),
    }
}

/// Whether an operation can become a request variant.
pub open spec fn operation_ok(op: OperationDecl) -> bool {
    &&& !op.generic
    &&& forall|j: int| 0 <= j < op.args@.len() ==> (#[trigger] op.args@[j]).pattern is Ident
}

/// Whether `e` is the error for operation `op`: type parameters are reported
/// before argument patterns.
pub open spec fn error_for(op: OperationDecl, e: CompileError) -> bool {
    if op.generic {
        e matches CompileError::GenericOperation(n) && n@ == op.name@
    } else {
        e matches CompileError::UnsupportedPattern(n) && n@ == op.name@
    }
}

/// Whether `fields` are the arguments `args`, in order, by name and type.
pub open spec fn fields_of(args: Seq<ArgDecl>, fields: Seq<Field>) -> bool {
    &&& fields.len() == args.len()
    &&& forall|j: int|
        0 <= j < args.len() ==> (#[trigger] fields[j]).name@ == arg_name(args[j]) && fields[j].ty@
            == args[j].ty@
}

/// The result type a client method declares for an operation.
pub open spec fn output_of(op: OperationDecl) -> Seq<char> {
    match op.output {
        Some(t) => t@,
        None => "()"@,
    }
}

/// Whether `v` is the request variant of operation `op` whose name class-cased is `name`.
pub open spec fn variant_for(op: OperationDecl, name: Seq<char>, v: RequestVariant) -> bool {
    &&& v.name@ == name
    &&& fields_of(op.args@, v.fields@)
}

/// Whether `m` is the client method of operation `op`, the `i`-th one.
pub open spec fn method_for(op: OperationDecl, i: int, m: ClientMethod) -> bool {
    &&& m.name@ == op.name@
    &&& fields_of(op.args@, m.args@)
    &&& m.output@ == output_of(op)
    &&& m.variant == i
}

/// Whether `a` is the dispatch arm of operation `op`, the `i`-th one.
pub open spec fn arm_for(op: OperationDecl, i: int, a: DispatchArm) -> bool {
    &&& a.variant == i
    &&& a.method@ == op.name@
    &&& a.bindings@.len() == op.args@.len()
    &&& forall|j: int| 0 <= j < op.args@.len() ==> (#[trigger] a.bindings@[j])@ == arg_name(op.args@[j])
    &&& a.passes_receiver == !(op.receiver is Absent)
}

/// Whether some operation takes `&mut self`.
pub open spec fn any_exclusive(ops: Seq<OperationDecl>) -> bool {
    exists|i: int| 0 <= i < ops.len() && (#[trigger] ops[i]).receiver is Exclusive
}

/// Whether `a` is what `decl` compiles to when its operations' class-case names are `names`.
pub open spec fn compiled_with(decl: ServiceDecl, names: Seq<Seq<char>>, a: ServiceArtifacts) -> bool {
    let ops = decl.operations@;
    &&& a.request.name@ == decl.name@ + "Request"@
    &&& a.client.name@ == decl.name@ + "Client"@
    &&& a.request.variants@.len() == ops.len()
    &&& a.client.methods@.len() == ops.len()
    &&& a.dispatch.arms@.len() == ops.len()
    &&& forall|i: int|
        0 <= i < ops.len() ==> variant_for(ops[i], names[i], #[trigger] a.request.variants@[i])
    &&& forall|i: int| 0 <= i < ops.len() ==> method_for(ops[i], i, #[trigger] a.client.methods@[i])
    &&& forall|i: int| 0 <= i < ops.len() ==> arm_for(ops[i], i, #[trigger] a.dispatch.arms@[i])
    &&& a.dispatch.exclusive == any_exclusive(ops)
}

/// Whether the three artifacts agree: one variant, one method and one arm per
/// operation, each method building its own variant from its arguments in order,
/// each arm binding that variant's fields in order.
pub open spec fn in_lock_step(a: ServiceArtifacts) -> bool {
    let n = a.request.variants@.len();
    &&& a.client.methods@.len() == n
    &&& a.dispatch.arms@.len() == n
    &&& forall|i: int|
        #![trigger a.request.variants@[i]]
        0 <= i < n ==> {
            let v = a.request.variants@[i];
            let m = a.client.methods@[i];
            let arm = a.dispatch.arms@[i];
            &&& m.variant == i
            &&& arm.variant == i
            &&& m.args@.len() == v.fields@.len()
            &&& arm.bindings@.len() == v.fields@.len()
            &&& forall|j: int|
                0 <= j < v.fields@.len() ==> {
                    &&& (#[trigger] m.args@[j]).name@ == v.fields@[j].name@
                    &&& m.args@[j].ty@ == v.fields@[j].ty@
                    &&& arm.bindings@[j]@ == v.fields@[j].name@
                }
        }
}

/// The case number that starts `request`, when it has one.
pub open spec fn tag_of(request: Seq<u8>) -> Option<nat> {
    if request.len() >= 4 {
        Some(le_value(request.subrange(0, 4)))
    } else {
        None
    }
}

/// A request message starts with its case number, four bytes least significant
/// first (bincode's encoding of an enum); what follows is left to the fields.
/// Reading the number back from a built message gives the case it was built for.
pub proof fn lemma_tag_round_trip(variant: u32, fields: Seq<u8>)
    ensures
        tag_of(le_bytes(variant as nat, 4) + fields) == Some(variant as nat),
{
    lemma_u32_round_trip(variant);
    assert((le_bytes(variant as nat, 4) + fields).subrange(0, 4) =~= le_bytes(variant as nat, 4));
}

impl ClientStub {
    /// The start of the request message that method `method` sends: the case
    /// number of its variant. Its arguments follow, encoded in order.
    pub fn request_prefix(&self, method: usize) -> (r: Result<Vec<u8>, Error>)
        requires
            method < self.methods@.len(),
        ensures
            self.methods@[method as int].variant <= u32::MAX <==> r is Ok,
            r matches Ok(b) ==> b@ == le_bytes(self.methods@[method as int].variant as nat, 4),
            r matches Err(e) ==> e is MsgSerFailed,
    {
        let variant = self.methods[method].variant;
        if variant as u64 > u32::MAX as u64 {
            return Err(Error::MsgSerFailed("too many operations for a case number".to_string()));
        }
        Ok(encode_u32(variant as u32))
    }
}

impl DispatchTable {
    /// The arm that handles `request`: the one for the case its first four
    /// bytes name.
    pub fn route(&self, request: &[u8]) -> (r: Result<usize, Error>)
        ensures
            r is Ok <==> (tag_of(request@) matches Some(t) && exists|k: int|
                0 <= k < self.arms@.len() && (#[trigger] self.arms@[k]).variant == t),
            r matches Ok(k) ==> k < self.arms@.len() && tag_of(request@) == Some(
                self.arms@[k as int].variant as nat,
            ),
            r matches Err(e) ==> e is MsgDeserFailed,
    {
        let tag = match decode_u32(request) {
            Some(t) => t,
            None => {
                return Err(Error::MsgDeserFailed("request too short for a case number".to_string()));
            },
        };
        let mut k: usize = 0;
        while k < self.arms.len()
            invariant
                0 <= k <= self.arms@.len(),
                tag as nat == le_value(request@.subrange(0, 4)),
                request@.len() >= 4,
                forall|j: int| 0 <= j < k ==> (#[trigger] self.arms@[j]).variant != tag as nat,
            decreases self.arms@.len() - k,
        {
            if self.arms[k].variant as u64 == tag as u64 {
                return Ok(k);
            }
            k = k + 1;
        }
        Err(Error::MsgDeserFailed("no operation for this case number".to_string()))
    }
}

/// Compiling yields artifacts in lock step.
pub proof fn lemma_compiled_in_lock_step(decl: ServiceDecl, names: Seq<Seq<char>>, a: ServiceArtifacts)
    requires
        compiled_with(decl, names, a),
    ensures
        in_lock_step(a),
{
    let ops = decl.operations@;
    assert forall|i: int|
        #![trigger a.request.variants@[i]]
        0 <= i < a.request.variants@.len() implies {
        let v = a.request.variants@[i];
        let m = a.client.methods@[i];
        let arm = a.dispatch.arms@[i];
        &&& m.variant == i
        &&& arm.variant == i
        &&& m.args@.len() == v.fields@.len()
        &&& arm.bindings@.len() == v.fields@.len()
        &&& forall|j: int|
            0 <= j < v.fields@.len() ==> {
                &&& (#[trigger] m.args@[j]).name@ == v.fields@[j].name@
                &&& m.args@[j].ty@ == v.fields@[j].ty@
                &&& arm.bindings@[j]@ == v.fields@[j].name@
            }
    } by {
        let v = a.request.variants@[i];
        let m = a.client.methods@[i];
        let arm = a.dispatch.arms@[i];
        assert(variant_for(ops[i], names[i], v));
        assert(method_for(ops[i], i, m));
        assert(arm_for(ops[i], i, arm));
        assert forall|j: int| 0 <= j < v.fields@.len() implies {
            &&& (#[trigger] m.args@[j]).name@ == v.fields@[j].name@
            &&& m.args@[j].ty@ == v.fields@[j].ty@
            &&& arm.bindings@[j]@ == v.fields@[j].name@
        } by {
            assert(v.fields@[j].name@ == arg_name(ops[i].args@[j]));
            assert(m.args@[j].name@ == arg_name(ops[i].args@[j]));
            assert(arm.bindings@[j]@ == arg_name(ops[i].args@[j]));
        }
    }
}

/// The fields for the arguments `args`, when each is bound by a plain name.
fn fields_from(args: &Vec<ArgDecl>) -> (r: Option<Vec<Field>>)
    ensures
        r is Some <==> forall|j: int| 0 <= j < args@.len() ==> (#[trigger] args@[j]).pattern is Ident,
        r matches Some(f) ==> fields_of(args@, f@),
{
    let mut fields: Vec<Field> = Vec::new();
    let mut j: usize = 0;
    while j < args.len()
        invariant
            0 <= j <= args@.len(),
            fields@.len() == j,
            forall|k: int| 0 <= k < j ==> (#[trigger] args@[k]).pattern is Ident,
            forall|k: int|
                0 <= k < j ==> (#[trigger] fields@[k]).name@ == arg_name(args@[k]) && fields@[k].ty@
                    == args@[k].ty@,
        decreases args@.len() - j,
    {
        match &args[j].pattern {
            Pattern::Ident(n) => {
                fields.push(Field { name: n.clone(), ty: args[j].ty.clone() });
            },
            Pattern::Other => {
                return None;
            },
        }
        j = j + 1;
    }
    Some(fields)
}

/// A field-by-field copy.
fn copy_fields(fields: &Vec<Field>) -> (r: Vec<Field>)
    ensures
        r@.len() == fields@.len(),
        forall|j: int|
            0 <= j < fields@.len() ==> (#[trigger] r@[j]).name == fields@[j].name && r@[j].ty
                == fields@[j].ty,
{
    let mut out: Vec<Field> = Vec::new();
    let mut j: usize = 0;
    while j < fields.len()
        invariant
            0 <= j <= fields@.len(),
            out@.len() == j,
            forall|k: int|
                0 <= k < j ==> (#[trigger] out@[k]).name == fields@[k].name && out@[k].ty
                    == fields@[k].ty,
        decreases fields@.len() - j,
    {
        out.push(Field { name: fields[j].name.clone(), ty: fields[j].ty.clone() });
        j = j + 1;
    }
    out
}

/// The names of `fields`, in order.
fn field_names(fields: &Vec<Field>) -> (r: Vec<String>)
    ensures
        r@.len() == fields@.len(),
        forall|j: int| 0 <= j < fields@.len() ==> #[trigger] r@[j] == fields@[j].name,
{
    let mut out: Vec<String> = Vec::new();
    let mut j: usize = 0;
    while j < fields.len()
        invariant
            0 <= j <= fields@.len(),
            out@.len() == j,
            forall|k: int| 0 <= k < j ==> #[trigger] out@[k] == fields@[k].name,
        decreases fields@.len() - j,
    {
        out.push(fields[j].name.clone());
        j = j + 1;
    }
    out
}

/// The views of a sequence of strings.
pub open spec fn views(names: Seq<String>) -> Seq<Seq<char>> {
    names.map_values(|s: String| s@)
}

/// Compiles `decl`, given the class-case name of each operation in `names`.
///
/// The operations are taken in order; the first one that is generic or binds an
/// argument by anything but a plain name stops the compiler with its error.
pub fn compile_with_names(decl: &ServiceDecl, names: &Vec<String>) -> (r: Result<
    ServiceArtifacts,
    CompileError,
>)
    requires
        names@.len() == decl.operations@.len(),
    ensures
        r is Ok <==> forall|i: int|
            0 <= i < decl.operations@.len() ==> operation_ok(#[trigger] decl.operations@[i]),
        r matches Err(e) ==> exists|i: int|
            0 <= i < decl.operations@.len() && !operation_ok(#[trigger] decl.operations@[i])
                && (forall|k: int| 0 <= k < i ==> operation_ok(#[trigger] decl.operations@[k]))
                && error_for(decl.operations@[i], e),
        r matches Ok(a) ==> compiled_with(*decl, views(names@), a) && in_lock_step(a),
{
    let ghost ops = decl.operations@;
    let ghost nv = views(names@);
    let mut variants: Vec<RequestVariant> = Vec::new();
    let mut methods: Vec<ClientMethod> = Vec::new();
    let mut arms: Vec<DispatchArm> = Vec::new();
    let mut exclusive = false;
    let mut i: usize = 0;
    while i < decl.operations.len()
        invariant
            ops == decl.operations@,
            nv == views(names@),
            names@.len() == ops.len(),
            0 <= i <= ops.len(),
            variants@.len() == i,
            methods@.len() == i,
            arms@.len() == i,
            forall|k: int| 0 <= k < i ==> operation_ok(#[trigger] ops[k]),
            forall|k: int| 0 <= k < i ==> variant_for(ops[k], nv[k], #[trigger] variants@[k]),
            forall|k: int| 0 <= k < i ==> method_for(ops[k], k, #[trigger] methods@[k]),
            forall|k: int| 0 <= k < i ==> arm_for(ops[k], k, #[trigger] arms@[k]),
            exclusive == exists|k: int| 0 <= k < i && (#[trigger] ops[k]).receiver is Exclusive,
        decreases ops.len() - i,
    {
        let op = &decl.operations[i];
        if op.generic {
            return Err(CompileError::GenericOperation(op.name.clone()));
        }
        let fields = match fields_from(&op.args) {
            Some(f) => f,
            None => {
                return Err(CompileError::UnsupportedPattern(op.name.clone()));
            },
        };
        let output = match &op.output {
            Some(t) => t.clone(),
            None => String::from_str("()"),
        };
        let bindings = field_names(&fields);
        let passes_receiver = match op.receiver {
            Receiver::Absent => false,
            _ => true,
        };
        let is_exclusive = match op.receiver {
            Receiver::Exclusive => true,
            _ => false,
        };
        let client_args = copy_fields(&fields);
        proof {
            assert forall|j: int| 0 <= j < op.args@.len() implies (#[trigger] bindings@[j])@
                == arg_name(op.args@[j]) by {
                assert(bindings@[j] == fields@[j].name);
            }
            assert(fields_of(op.args@, client_args@)) by {
                assert forall|j: int| 0 <= j < op.args@.len() implies (#[trigger] client_args@[j]).name@
                    == arg_name(op.args@[j]) && client_args@[j].ty@ == op.args@[j].ty@ by {
                    assert(fields@[j].name@ == arg_name(op.args@[j]));
                }
            }
        }
        variants.push(RequestVariant { name: names[i].clone(), fields });
        methods.push(ClientMethod { name: op.name.clone(), args: client_args, output, variant: i });
        arms.push(DispatchArm { variant: i, method: op.name.clone(), bindings, passes_receiver });
        exclusive = exclusive || is_exclusive;
        proof {
            assert(ops[i as int] == *op);
            if is_exclusive {
                assert(ops[i as int].receiver is Exclusive);
            }
            if exclusive && !is_exclusive {
                let k = choose|k: int| 0 <= k < i && (#[trigger] ops[k]).receiver is Exclusive;
                assert(0 <= k < i + 1);
            }
        }
        i = i + 1;
    }
    let request = RequestSchema { name: decl.name.clone().concat("Request"), variants };
    let client = ClientStub { name: decl.name.clone().concat("Client"), methods };
    let dispatch = DispatchTable { exclusive, arms };
    let a = ServiceArtifacts { request, client, dispatch };
    proof {
        lemma_compiled_in_lock_step(*decl, nv, a);
    }
    Ok(a)
}

/// Compiles `decl`: the request variants are named by the class-case spelling of
/// their operations.
pub fn compile(decl: &ServiceDecl) -> (r: Result<ServiceArtifacts, CompileError>)
    ensures
        r is Ok <==> forall|i: int|
            0 <= i < decl.operations@.len() ==> operation_ok(#[trigger] decl.operations@[i]),
        r matches Err(e) ==> exists|i: int|
            0 <= i < decl.operations@.len() && !operation_ok(#[trigger] decl.operations@[i])
                && (forall|k: int| 0 <= k < i ==> operation_ok(#[trigger] decl.operations@[k]))
                && error_for(decl.operations@[i], e),
        r matches Ok(a) ==> compiled_with(
            *decl,
            decl.operations@.map_values(|op: OperationDecl| class_case_of(op.name@)),
            a,
        ) && in_lock_step(a),
{
    let mut names: Vec<String> = Vec::new();
    let mut i: usize = 0;
    while i < decl.operations.len()
        invariant
            0 <= i <= decl.operations@.len(),
            names@.len() == i,
            forall|k: int|
                0 <= k < i ==> (#[trigger] names@[k])@ == class_case_of(decl.operations@[k].name@),
        decreases decl.operations@.len() - i,
    {
        names.push(to_class_case(decl.operations[i].name.as_str()));
        i = i + 1;
    }
    let r = compile_with_names(decl, &names);
    assert(views(names@) =~= decl.operations@.map_values(
        |op: OperationDecl| class_case_of(op.name@),
    ));
    r
}

} // verus!
