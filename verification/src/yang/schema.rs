//! The schema that modules make: a tree of nodes, their types, and the
//! identities.
use std::collections::HashMap;

use vstd::prelude::*;
use vstd::set_lib::{lemma_int_range, lemma_len_subset, set_int_range};

use crate::text::{local_of, local_part, same, texts};
use crate::yang::parser::opt_text;

pub use crate::yang::builder::{build, Builder, SchemaError};

verus! {

pub type NodeId = usize;

pub type TypeId = usize;

pub type IdentityId = usize;

/// The built-in types.
#[derive(Debug, Clone, Copy, PartialEq, Eq, Structural)]
pub enum Builtin {
    Binary,
    Bits,
    Boolean,
    Decimal64,
    Empty,
    Enumeration,
    Identityref,
    InstanceIdentifier,
    Int8,
    Int16,
    Int32,
    Int64,
    Uint8,
    Uint16,
    Uint32,
    Uint64,
    Leafref,
    String,
    Union,
}

/// The name of a built-in type in YANG.
pub open spec fn builtin_name(b: Builtin) -> Seq<char> {
    match b {
        Builtin::Binary => "binary"@,
        Builtin::Bits => "bits"@,
        Builtin::Boolean => "boolean"@,
        Builtin::Decimal64 => "decimal64"@,
        Builtin::Empty => "empty"@,
        Builtin::Enumeration => "enumeration"@,
        Builtin::Identityref => "identityref"@,
        Builtin::InstanceIdentifier => "instance-identifier"@,
        Builtin::Int8 => "int8"@,
        Builtin::Int16 => "int16"@,
        Builtin::Int32 => "int32"@,
        Builtin::Int64 => "int64"@,
        Builtin::Uint8 => "uint8"@,
        Builtin::Uint16 => "uint16"@,
        Builtin::Uint32 => "uint32"@,
        Builtin::Uint64 => "uint64"@,
        Builtin::Leafref => "leafref"@,
        Builtin::String => "string"@,
        Builtin::Union => "union"@,
    }
}

/// The built-in type with a name.
pub open spec fn builtin_named(name: Seq<char>) -> Option<Builtin> {
    if name == "binary"@ {
        Some(Builtin::Binary)
    } else if name == "bits"@ {
        Some(Builtin::Bits)
    } else if name == "boolean"@ {
        Some(Builtin::Boolean)
    } else if name == "decimal64"@ {
        Some(Builtin::Decimal64)
    } else if name == "empty"@ {
        Some(Builtin::Empty)
    } else if name == "enumeration"@ {
        Some(Builtin::Enumeration)
    } else if name == "identityref"@ {
        Some(Builtin::Identityref)
    } else if name == "instance-identifier"@ {
        Some(Builtin::InstanceIdentifier)
    } else if name == "int8"@ {
        Some(Builtin::Int8)
    } else if name == "int16"@ {
        Some(Builtin::Int16)
    } else if name == "int32"@ {
        Some(Builtin::Int32)
    } else if name == "int64"@ {
        Some(Builtin::Int64)
    } else if name == "uint8"@ {
        Some(Builtin::Uint8)
    } else if name == "uint16"@ {
        Some(Builtin::Uint16)
    } else if name == "uint32"@ {
        Some(Builtin::Uint32)
    } else if name == "uint64"@ {
        Some(Builtin::Uint64)
    } else if name == "leafref"@ {
        Some(Builtin::Leafref)
    } else if name == "string"@ {
        Some(Builtin::String)
    } else if name == "union"@ {
        Some(Builtin::Union)
    } else {
        None
    }
}

/// Whether a type is an integer of 64 bits.
pub open spec fn is_wide(b: Builtin) -> bool {
    b == Builtin::Int64 || b == Builtin::Uint64
}

/// Whether a type is an integer of at most 32 bits.
pub open spec fn is_narrow(b: Builtin) -> bool {
    b == Builtin::Int8 || b == Builtin::Int16 || b == Builtin::Int32 || b == Builtin::Uint8 || b
        == Builtin::Uint16 || b == Builtin::Uint32
}

impl Builtin {
    /// The built-in type with a name.
    pub fn from_name(name: &str) -> (r: Option<Builtin>)
        ensures
            r == builtin_named(name@),
    {
        if same(name, "binary") {
            Some(Builtin::Binary)
        } else if same(name, "bits") {
            Some(Builtin::Bits)
        } else if same(name, "boolean") {
            Some(Builtin::Boolean)
        } else if same(name, "decimal64") {
            Some(Builtin::Decimal64)
        } else if same(name, "empty") {
            Some(Builtin::Empty)
        } else if same(name, "enumeration") {
            Some(Builtin::Enumeration)
        } else if same(name, "identityref") {
            Some(Builtin::Identityref)
        } else if same(name, "instance-identifier") {
            Some(Builtin::InstanceIdentifier)
        } else if same(name, "int8") {
            Some(Builtin::Int8)
        } else if same(name, "int16") {
            Some(Builtin::Int16)
        } else if same(name, "int32") {
            Some(Builtin::Int32)
        } else if same(name, "int64") {
            Some(Builtin::Int64)
        } else if same(name, "uint8") {
            Some(Builtin::Uint8)
        } else if same(name, "uint16") {
            Some(Builtin::Uint16)
        } else if same(name, "uint32") {
            Some(Builtin::Uint32)
        } else if same(name, "uint64") {
            Some(Builtin::Uint64)
        } else if same(name, "leafref") {
            Some(Builtin::Leafref)
        } else if same(name, "string") {
            Some(Builtin::String)
        } else if same(name, "union") {
            Some(Builtin::Union)
        } else {
            None
        }
    }

    /// The name of the type in YANG.
    pub fn name(self) -> (r: &'static str)
        ensures
            r@ == builtin_name(self),
    {
        match self {
            Builtin::Binary => "binary",
            Builtin::Bits => "bits",
            Builtin::Boolean => "boolean",
            Builtin::Decimal64 => "decimal64",
            Builtin::Empty => "empty",
            Builtin::Enumeration => "enumeration",
            Builtin::Identityref => "identityref",
            Builtin::InstanceIdentifier => "instance-identifier",
            Builtin::Int8 => "int8",
            Builtin::Int16 => "int16",
            Builtin::Int32 => "int32",
            Builtin::Int64 => "int64",
            Builtin::Uint8 => "uint8",
            Builtin::Uint16 => "uint16",
            Builtin::Uint32 => "uint32",
            Builtin::Uint64 => "uint64",
            Builtin::Leafref => "leafref",
            Builtin::String => "string",
            Builtin::Union => "union",
        }
    }

    /// Whether the type is an integer of 64 bits.
    pub fn is_64bit_int(self) -> (r: bool)
        ensures
            r == is_wide(self),
    {
        match self {
            Builtin::Int64 => true,
            Builtin::Uint64 => true,
            _ => false,
        }
    }

    /// Whether the type is an integer of at most 32 bits.
    pub fn is_narrow_int(self) -> (r: bool)
        ensures
            r == is_narrow(self),
    {
        match self {
            Builtin::Int8 => true,
            Builtin::Int16 => true,
            Builtin::Int32 => true,
            Builtin::Uint8 => true,
            Builtin::Uint16 => true,
            Builtin::Uint32 => true,
            _ => false,
        }
    }
}

/// Every built-in type is found by its name.
pub proof fn law_builtin_names(b: Builtin)
    ensures
        builtin_named(builtin_name(b)) == Some(b),
{
    reveal_strlit("binary");
    reveal_strlit("bits");
    reveal_strlit("boolean");
    reveal_strlit("decimal64");
    reveal_strlit("empty");
    reveal_strlit("enumeration");
    reveal_strlit("identityref");
    reveal_strlit("instance-identifier");
    reveal_strlit("int8");
    reveal_strlit("int16");
    reveal_strlit("int32");
    reveal_strlit("int64");
    reveal_strlit("uint8");
    reveal_strlit("uint16");
    reveal_strlit("uint32");
    reveal_strlit("uint64");
    reveal_strlit("leafref");
    reveal_strlit("string");
    reveal_strlit("union");
    assert("binary"@[0] == 'b' && "binary"@[1] == 'i' && "binary"@[3] == 'a' && "binary"@[4] == 'r');
    assert("bits"@[0] == 'b' && "bits"@[1] == 'i' && "bits"@[3] == 's');
    assert("boolean"@[0] == 'b' && "boolean"@[1] == 'o' && "boolean"@[3] == 'l' && "boolean"@[4] == 'e');
    assert("decimal64"@[0] == 'd' && "decimal64"@[1] == 'e' && "decimal64"@[3] == 'i' && "decimal64"@[4] == 'm');
    assert("empty"@[0] == 'e' && "empty"@[1] == 'm' && "empty"@[3] == 't' && "empty"@[4] == 'y');
    assert("enumeration"@[0] == 'e' && "enumeration"@[1] == 'n' && "enumeration"@[3] == 'm' && "enumeration"@[4] == 'e');
    assert("identityref"@[0] == 'i' && "identityref"@[1] == 'd' && "identityref"@[3] == 'n' && "identityref"@[4] == 't');
    assert("instance-identifier"@[0] == 'i' && "instance-identifier"@[1] == 'n' && "instance-identifier"@[3] == 't' && "instance-identifier"@[4] == 'a');
    assert("int8"@[0] == 'i' && "int8"@[1] == 'n' && "int8"@[3] == '8');
    assert("int16"@[0] == 'i' && "int16"@[1] == 'n' && "int16"@[3] == '1' && "int16"@[4] == '6');
    assert("int32"@[0] == 'i' && "int32"@[1] == 'n' && "int32"@[3] == '3' && "int32"@[4] == '2');
    assert("int64"@[0] == 'i' && "int64"@[1] == 'n' && "int64"@[3] == '6' && "int64"@[4] == '4');
    assert("uint8"@[0] == 'u' && "uint8"@[1] == 'i' && "uint8"@[3] == 't' && "uint8"@[4] == '8');
    assert("uint16"@[0] == 'u' && "uint16"@[1] == 'i' && "uint16"@[3] == 't' && "uint16"@[4] == '1');
    assert("uint32"@[0] == 'u' && "uint32"@[1] == 'i' && "uint32"@[3] == 't' && "uint32"@[4] == '3');
    assert("uint64"@[0] == 'u' && "uint64"@[1] == 'i' && "uint64"@[3] == 't' && "uint64"@[4] == '6');
    assert("leafref"@[0] == 'l' && "leafref"@[1] == 'e' && "leafref"@[3] == 'f' && "leafref"@[4] == 'r');
    assert("string"@[0] == 's' && "string"@[1] == 't' && "string"@[3] == 'i' && "string"@[4] == 'n');
    assert("union"@[0] == 'u' && "union"@[1] == 'n' && "union"@[3] == 'o' && "union"@[4] == 'n');
}

/// A bit of a bits type.
#[derive(Debug, Clone)]
pub struct Bit {
    pub name: String,
    pub position: u32,
}

/// A value of an enumeration.
#[derive(Debug, Clone)]
pub struct EnumVal {
    pub name: String,
    pub value: i64,
}

/// What a [`Bit`] stands for.
#[verifier::ext_equal]
pub struct BitView {
    pub name: Seq<char>,
    pub position: u32,
}

/// What an [`EnumVal`] stands for.
#[verifier::ext_equal]
pub struct EnumView {
    pub name: Seq<char>,
    pub value: i64,
}

impl View for Bit {
    type V = BitView;

    open spec fn view(&self) -> BitView {
        BitView { name: self.name@, position: self.position }
    }
}

impl View for EnumVal {
    type V = EnumView;

    open spec fn view(&self) -> EnumView {
        EnumView { name: self.name@, value: self.value }
    }
}

/// The views of some bits.
pub open spec fn bit_views(bits: Seq<Bit>) -> Seq<BitView> {
    bits.map_values(|b: Bit| b@)
}

/// The views of some enumeration values.
pub open spec fn enum_views(enums: Seq<EnumVal>) -> Seq<EnumView> {
    enums.map_values(|e: EnumVal| e@)
}

/// A type as a leaf has it, with its restrictions.
#[derive(Debug)]
pub struct TypeDef {
    pub builtin: Builtin,
    pub fraction_digits: Option<u8>,
    pub bits: Vec<Bit>,
    pub enums: Vec<EnumVal>,
    pub identity_bases: Vec<IdentityId>,
    /// The module whose text declared the type: a name of an identity
    /// without a prefix is looked for in it.
    pub source_module: Option<String>,
    pub leafref_path: Option<String>,
    pub leafref_target: Option<NodeId>,
    pub union_members: Vec<TypeId>,
    /// The allowed values of an integer, or lengths of a string or binary.
    pub ranges: Vec<(i128, i128)>,
    /// The patterns that a string must match.
    pub patterns: Vec<String>,
}

/// What a [`TypeDef`] stands for.
#[verifier::ext_equal]
pub struct TypeView {
    pub builtin: Builtin,
    pub fraction_digits: Option<u8>,
    pub bits: Seq<BitView>,
    pub enums: Seq<EnumView>,
    pub identity_bases: Seq<usize>,
    pub source_module: Option<Seq<char>>,
    pub leafref_path: Option<Seq<char>>,
    pub leafref_target: Option<usize>,
    pub union_members: Seq<usize>,
    pub ranges: Seq<(i128, i128)>,
    pub patterns: Seq<Seq<char>>,
}

impl View for TypeDef {
    type V = TypeView;

    open spec fn view(&self) -> TypeView {
        TypeView {
            builtin: self.builtin,
            fraction_digits: self.fraction_digits,
            bits: bit_views(self.bits@),
            enums: enum_views(self.enums@),
            identity_bases: self.identity_bases@,
            source_module: opt_text(self.source_module),
            leafref_path: opt_text(self.leafref_path),
            leafref_target: self.leafref_target,
            union_members: self.union_members@,
            ranges: self.ranges@,
            patterns: texts(self.patterns@),
        }
    }
}

/// A type without anything but its built-in type.
pub open spec fn bare_type(builtin: Builtin) -> TypeView {
    TypeView {
        builtin,
        fraction_digits: None,
        bits: Seq::empty(),
        enums: Seq::empty(),
        identity_bases: Seq::empty(),
        source_module: None,
        leafref_path: None,
        leafref_target: None,
        union_members: Seq::empty(),
        ranges: Seq::empty(),
        patterns: Seq::empty(),
    }
}

impl TypeDef {
    /// A type without anything but its built-in type.
    pub fn new(builtin: Builtin) -> (r: Self)
        ensures
            r@ == bare_type(builtin),
    {
        let r = TypeDef {
            builtin,
            fraction_digits: None,
            bits: Vec::new(),
            enums: Vec::new(),
            identity_bases: Vec::new(),
            source_module: None,
            leafref_path: None,
            leafref_target: None,
            union_members: Vec::new(),
            ranges: Vec::new(),
            patterns: Vec::new(),
        };
        assert(r@ =~= bare_type(builtin));
        r
    }
}

/// An identity, with the identities that it is directly derived from and
/// that are directly derived from it.
#[derive(Debug)]
pub struct Identity {
    pub name: String,
    pub module: String,
    pub base: Vec<IdentityId>,
    pub derived: Vec<IdentityId>,
    pub sid: Option<i64>,
}

/// What an [`Identity`] stands for.
#[verifier::ext_equal]
pub struct IdentityView {
    pub name: Seq<char>,
    pub module: Seq<char>,
    pub base: Seq<usize>,
    pub derived: Seq<usize>,
    pub sid: Option<i64>,
}

impl View for Identity {
    type V = IdentityView;

    open spec fn view(&self) -> IdentityView {
        IdentityView {
            name: self.name@,
            module: self.module@,
            base: self.base@,
            derived: self.derived@,
            sid: self.sid,
        }
    }
}

/// A node of the schema tree.
#[derive(Debug)]
pub struct Node {
    pub kw: String,
    /// `module:local` for a node at the top or one that another module put
    /// there, else the local name. Segments of paths must be this name.
    pub name: String,
    pub parent: Option<NodeId>,
    pub children: Vec<NodeId>,
    pub config: bool,
    pub mandatory: bool,
    pub type_id: Option<TypeId>,
    /// The keys of a list, in the order of the schema.
    pub keys: Vec<String>,
    pub sid: Option<i64>,
    pub owner_module: String,
    pub description: Option<String>,
}

/// What a [`Node`] stands for.
#[verifier::ext_equal]
pub struct NodeView {
    pub kw: Seq<char>,
    pub name: Seq<char>,
    pub parent: Option<usize>,
    pub children: Seq<usize>,
    pub config: bool,
    pub mandatory: bool,
    pub type_id: Option<usize>,
    pub keys: Seq<Seq<char>>,
    pub sid: Option<i64>,
    pub owner_module: Seq<char>,
    pub description: Option<Seq<char>>,
}

impl View for Node {
    type V = NodeView;

    open spec fn view(&self) -> NodeView {
        NodeView {
            kw: self.kw@,
            name: self.name@,
            parent: self.parent,
            children: self.children@,
            config: self.config,
            mandatory: self.mandatory,
            type_id: self.type_id,
            keys: texts(self.keys@),
            sid: self.sid,
            owner_module: self.owner_module@,
            description: opt_text(self.description),
        }
    }
}

impl Node {
    /// The name without its module.
    pub fn local_name(&self) -> (r: String)
        ensures
            r@ == local_of(self@.name),
    {
        local_part(self.name.as_str())
    }
}

/// The views of some nodes.
pub open spec fn node_views(nodes: Seq<Node>) -> Seq<NodeView> {
    nodes.map_values(|n: Node| n@)
}

/// The views of some types.
pub open spec fn type_views(types: Seq<TypeDef>) -> Seq<TypeView> {
    types.map_values(|t: TypeDef| t@)
}

/// The views of some identities.
pub open spec fn identity_views(ids: Seq<Identity>) -> Seq<IdentityView> {
    ids.map_values(|i: Identity| i@)
}

/// The names with their nodes.
pub open spec fn root_views(roots: Seq<(String, usize)>) -> Seq<(Seq<char>, usize)> {
    roots.map_values(|r: (String, usize)| (r.0@, r.1))
}

/// The schema that some modules make.
pub struct Schema {
    pub nodes: Vec<Node>,
    pub types: Vec<TypeDef>,
    pub identities: Vec<Identity>,
    /// The top of each module's own tree.
    pub module_root: Vec<(String, NodeId)>,
    /// The top of the tree of data, in which choices and cases are left out.
    pub root: NodeId,
    /// The node of the tree of data with each SID.
    pub sid_index: HashMap<i64, NodeId>,
}

/// What a [`Schema`] stands for.
#[verifier::ext_equal]
pub struct SchemaView {
    pub nodes: Seq<NodeView>,
    pub types: Seq<TypeView>,
    pub identities: Seq<IdentityView>,
    pub module_root: Seq<(Seq<char>, usize)>,
    pub root: usize,
    pub sid_index: Map<i64, usize>,
}

impl View for Schema {
    type V = SchemaView;

    open spec fn view(&self) -> SchemaView {
        SchemaView {
            nodes: node_views(self.nodes@),
            types: type_views(self.types@),
            identities: identity_views(self.identities@),
            module_root: root_views(self.module_root@),
            root: self.root,
            sid_index: self.sid_index@,
        }
    }
}

/// Whether a node refers to nodes and types that there are, and stands
/// behind its parent and before its children.
pub open spec fn node_ok(nodes: int, types: int, i: int, n: NodeView) -> bool {
    &&& n.parent matches Some(p) ==> p < i
    &&& forall|k: int| 0 <= k < n.children.len() ==> i < #[trigger] n.children[k] < nodes
    &&& n.type_id matches Some(t) ==> t < types
}

/// Whether a type refers to nodes, types and identities that there are, and
/// stands behind its members.
pub open spec fn type_ok(nodes: int, identities: int, i: int, t: TypeView) -> bool {
    &&& t.leafref_target matches Some(n) ==> n < nodes
    &&& forall|k: int| 0 <= k < t.union_members.len() ==> #[trigger] t.union_members[k] < i
    &&& forall|k: int|
        0 <= k < t.identity_bases.len() ==> #[trigger] t.identity_bases[k] < identities
}

/// Whether an identity refers to identities that there are.
pub open spec fn identity_ok(identities: int, d: IdentityView) -> bool {
    &&& forall|k: int| 0 <= k < d.derived.len() ==> #[trigger] d.derived[k] < identities
    &&& forall|k: int| 0 <= k < d.base.len() ==> #[trigger] d.base[k] < identities
}

/// Whether all nodes are as they must be.
pub open spec fn nodes_ok(nodes: Seq<NodeView>, types: int) -> bool {
    forall|i: int|
        0 <= i < nodes.len() ==> node_ok(nodes.len() as int, types, i, #[trigger] nodes[i])
}

/// Whether all types are as they must be.
pub open spec fn types_ok(types: Seq<TypeView>, nodes: int, identities: int) -> bool {
    forall|i: int| 0 <= i < types.len() ==> type_ok(nodes, identities, i, #[trigger] types[i])
}

/// Whether all identities are as they must be.
pub open spec fn identities_ok(ids: Seq<IdentityView>) -> bool {
    forall|i: int| 0 <= i < ids.len() ==> identity_ok(ids.len() as int, #[trigger] ids[i])
}

/// Whether a schema is as it must be: all that it refers to is there.
pub open spec fn schema_ok(s: SchemaView) -> bool {
    &&& s.nodes.len() <= usize::MAX
    &&& nodes_ok(s.nodes, s.types.len() as int)
    &&& types_ok(s.types, s.nodes.len() as int, s.identities.len() as int)
    &&& identities_ok(s.identities)
    &&& s.root < s.nodes.len()
    &&& forall|sid: i64| #[trigger]
        s.sid_index.contains_key(sid) ==> s.sid_index[sid] < s.nodes.len()
}

/// The first of some children, from `from` on, with a name.
pub open spec fn child_named(
    nodes: Seq<NodeView>,
    children: Seq<usize>,
    name: Seq<char>,
    from: int,
) -> Option<usize>
    decreases children.len() - from,
{
    if from >= children.len() {
        None
    } else if nodes[children[from] as int].name == name {
        Some(children[from])
    } else {
        child_named(nodes, children, name, from + 1)
    }
}

/// The child of a node with a name.
pub open spec fn child_of(s: SchemaView, parent: usize, name: Seq<char>) -> Option<usize> {
    child_named(s.nodes, s.nodes[parent as int].children, name, 0)
}

/// Whether `to` is `from` or derived from it in `n` steps.
pub open spec fn derives_in(ids: Seq<IdentityView>, from: int, to: int, n: nat) -> bool
    decreases n,
{
    if n == 0 {
        from == to
    } else {
        exists|k: int|
            0 <= k < ids[from].derived.len() && derives_in(
                ids,
                #[trigger] ids[from].derived[k] as int,
                to,
                (n - 1) as nat,
            )
    }
}

/// Whether `to` is `from` or derived from it, directly or through others.
pub open spec fn derives(ids: Seq<IdentityView>, from: int, to: int) -> bool {
    exists|n: nat| #[trigger] derives_in(ids, from, to, n)
}

/// Every identity counts as derived from itself.
pub proof fn law_derives_reflexive(ids: Seq<IdentityView>, id: int)
    ensures
        derives(ids, id, id),
{
    assert(derives_in(ids, id, id, 0));
}

/// What is directly derived from a derived identity is derived too.
pub proof fn law_derives_step(ids: Seq<IdentityView>, from: int, mid: int, k: int)
    requires
        derives(ids, from, mid),
        0 <= k < ids[mid].derived.len(),
    ensures
        derives(ids, from, ids[mid].derived[k] as int),
{
    let n = choose|n: nat| #[trigger] derives_in(ids, from, mid, n);
    lemma_derives_extend(ids, from, mid, k, n);
}

proof fn lemma_derives_extend(ids: Seq<IdentityView>, from: int, mid: int, k: int, n: nat)
    requires
        derives_in(ids, from, mid, n),
        0 <= k < ids[mid].derived.len(),
    ensures
        derives_in(ids, from, ids[mid].derived[k] as int, n + 1),
    decreases n,
{
    let to = ids[mid].derived[k] as int;
    if n == 0 {
        assert(derives_in(ids, ids[from].derived[k] as int, to, 0));
    } else {
        let j = choose|j: int|
            0 <= j < ids[from].derived.len() && derives_in(
                ids,
                #[trigger] ids[from].derived[j] as int,
                mid,
                (n - 1) as nat,
            );
        lemma_derives_extend(ids, ids[from].derived[j] as int, mid, k, (n - 1) as nat);
        assert(derives_in(ids, ids[from].derived[j] as int, to, n));
    }
}

/// Derivation composes: what is derived from something derived is derived.
pub proof fn law_derives_transitive(ids: Seq<IdentityView>, a: int, b: int, c: int)
    requires
        derives(ids, a, b),
        derives(ids, b, c),
    ensures
        derives(ids, a, c),
{
    let n = choose|n: nat| #[trigger] derives_in(ids, a, b, n);
    let m = choose|m: nat| #[trigger] derives_in(ids, b, c, m);
    lemma_derives_compose(ids, a, b, c, n, m);
}

proof fn lemma_derives_compose(ids: Seq<IdentityView>, a: int, b: int, c: int, n: nat, m: nat)
    requires
        derives_in(ids, a, b, n),
        derives_in(ids, b, c, m),
    ensures
        derives_in(ids, a, c, n + m),
    decreases n,
{
    if n > 0 {
        let j = choose|j: int|
            0 <= j < ids[a].derived.len() && derives_in(
                ids,
                #[trigger] ids[a].derived[j] as int,
                b,
                (n - 1) as nat,
            );
        lemma_derives_compose(ids, ids[a].derived[j] as int, b, c, (n - 1) as nat, m);
        assert(derives_in(ids, ids[a].derived[j] as int, c, (n + m - 1) as nat));
    }
}

/// A set that holds `from` and, with an identity, all directly derived ones
/// holds every derived one.
proof fn lemma_closed_holds_all(ids: Seq<IdentityView>, set: Seq<usize>, from: int, to: int, n: nat)
    requires
        derives_in(ids, from, to, n),
        set.contains(from as usize),
        0 <= from <= usize::MAX,
        0 <= to <= usize::MAX,
        forall|x: usize, k: int|
            set.contains(x) && 0 <= k < ids[x as int].derived.len() ==> set.contains(
                #[trigger] ids[x as int].derived[k],
            ),
    ensures
        set.contains(to as usize),
    decreases n,
{
    if n > 0 {
        let j = choose|j: int|
            0 <= j < ids[from].derived.len() && derives_in(
                ids,
                #[trigger] ids[from].derived[j] as int,
                to,
                (n - 1) as nat,
            );
        let next = ids[from as usize as int].derived[j];
        assert(set.contains(next));
        lemma_closed_holds_all(ids, set, next as int, to, (n - 1) as nat);
    }
}

/// Different numbers below `n` are at most `n`.
pub proof fn lemma_distinct_below(s: Seq<usize>, n: int)
    requires
        0 <= n,
        s.no_duplicates(),
        forall|i: int| 0 <= i < s.len() ==> #[trigger] s[i] < n,
    ensures
        s.len() <= n,
{
    let ints = s.map_values(|x: usize| x as int);
    assert(ints.no_duplicates());
    ints.unique_seq_to_set();
    lemma_int_range(0, n);
    assert(ints.to_set().subset_of(set_int_range(0, n)));
    lemma_len_subset(ints.to_set(), set_int_range(0, n));
}

impl Schema {
    /// What holds of a schema.
    pub open spec fn wf(&self) -> bool {
        schema_ok(self@)
    }

    /// A node.
    pub fn node(&self, id: NodeId) -> (r: &Node)
        requires
            id < self.nodes@.len(),
        ensures
            r@ == self@.nodes[id as int],
    {
        &self.nodes[id]
    }

    /// A type.
    pub fn ty(&self, id: TypeId) -> (r: &TypeDef)
        requires
            id < self.types@.len(),
        ensures
            r@ == self@.types[id as int],
    {
        &self.types[id]
    }

    /// An identity.
    pub fn identity(&self, id: IdentityId) -> (r: &Identity)
        requires
            id < self.identities@.len(),
        ensures
            r@ == self@.identities[id as int],
    {
        &self.identities[id]
    }

    /// The child of a node with a name.
    pub fn find_child(&self, parent: NodeId, name: &str) -> (r: Option<NodeId>)
        requires
            self.wf(),
            parent < self.nodes@.len(),
        ensures
            r == child_of(self@, parent, name@),
            r matches Some(c) ==> parent < c < self.nodes@.len(),
    {
        let children = &self.nodes[parent].children;
        let ghost n = self@.nodes[parent as int];
        assert(node_ok(self.nodes@.len() as int, self.types@.len() as int, parent as int, n));
        let mut i: usize = 0;
        while i < children.len()
            invariant
                i <= children@.len(),
                self.wf(),
                n == self@.nodes[parent as int],
                node_ok(self.nodes@.len() as int, self.types@.len() as int, parent as int, n),
                children@ == n.children,
                child_of(self@, parent, name@) == child_named(
                    self@.nodes,
                    children@,
                    name@,
                    i as int,
                ),
            decreases children@.len() - i,
        {
            let c = children[i];
            assert(n.children[i as int] == c);
            if same(self.nodes[c].name.as_str(), name) {
                return Some(c);
            }
            i += 1;
        }
        None
    }

    /// All identities that are `base` or derived from it, directly or through
    /// others.
    pub fn derived_from(&self, base: IdentityId) -> (r: Vec<IdentityId>)
        requires
            self.wf(),
            base < self.identities@.len(),
        ensures
            r@.no_duplicates(),
            forall|id: usize| #[trigger]
                r@.contains(id) <==> id < self.identities@.len() && derives(
                    self@.identities,
                    base as int,
                    id as int,
                ),
    {
        let ghost ids = self@.identities;
        let n: usize = self.identities.len();
        let mut out: Vec<IdentityId> = Vec::new();
        let mut stack: Vec<IdentityId> = Vec::new();
        stack.push(base);
        proof {
            law_derives_reflexive(ids, base as int);
            assert(stack@[0] == base);
        }
        while stack.len() > 0
            invariant
                self.wf(),
                ids == self@.identities,
                n == ids.len(),
                base < n,
                out@.no_duplicates(),
                forall|i: int| 0 <= i < out@.len() ==> #[trigger] out@[i] < n,
                forall|i: int| 0 <= i < stack@.len() ==> #[trigger] stack@[i] < n,
                forall|i: int|
                    0 <= i < out@.len() ==> derives(ids, base as int, #[trigger] out@[i] as int),
                forall|i: int|
                    0 <= i < stack@.len() ==> derives(ids, base as int, #[trigger] stack@[i] as int),
                out@.contains(base) || stack@.contains(base),
                forall|x: usize, k: int|
                    out@.contains(x) && 0 <= k < ids[x as int].derived.len() ==> out@.contains(
                        #[trigger] ids[x as int].derived[k],
                    ) || stack@.contains(ids[x as int].derived[k]),
            decreases n - out@.len(), stack@.len(),
        {
            let ghost had = stack@;
            let ghost out0 = out@;
            let id: usize = match stack.pop() {
                Some(id) => id,
                None => 0,
            };
            assert(had =~= stack@.push(id));
            assert(id == had[had.len() - 1]);
            assert forall|x: usize| had.contains(x) implies x == id || stack@.contains(x) by {
                let i = choose|i: int| 0 <= i < had.len() && had[i] == x;
                if i < stack@.len() {
                    assert(stack@[i] == x);
                }
            }
            if !contains_id(out.as_slice(), id) {
                out.push(id);
                proof {
                    assert(out@[out@.len() - 1] == id);
                    assert forall|x: usize| out0.contains(x) implies out@.contains(x) by {
                        let i = choose|i: int| 0 <= i < out0.len() && out0[i] == x;
                        assert(out@[i] == x);
                    }
                    lemma_distinct_below(out@, n as int);
                }
                let ghost popped = stack@;
                let derived = &self.identities[id].derived;
                assert(ids[id as int].derived == derived@);
                assert(identity_ok(n as int, ids[id as int]));
                let mut k: usize = 0;
                while k < derived.len()
                    invariant
                        k <= derived@.len(),
                        n == ids.len(),
                        id < n,
                        derived@ == ids[id as int].derived,
                        identity_ok(n as int, ids[id as int]),
                        derives(ids, base as int, id as int),
                        forall|i: int| 0 <= i < stack@.len() ==> #[trigger] stack@[i] < n,
                        forall|i: int|
                            0 <= i < stack@.len() ==> derives(
                                ids,
                                base as int,
                                #[trigger] stack@[i] as int,
                            ),
                        stack@.len() == popped.len() + k,
                        forall|i: int| 0 <= i < popped.len() ==> #[trigger] stack@[i] == popped[i],
                        forall|i: int|
                            0 <= i < k ==> #[trigger] stack@[popped.len() + i] == derived@[i],
                    decreases derived@.len() - k,
                {
                    proof {
                        law_derives_step(ids, base as int, id as int, k as int);
                        assert(ids[id as int].derived[k as int] == derived@[k as int]);
                    }
                    stack.push(derived[k]);
                    k += 1;
                }
                proof {
                    assert forall|x: usize| popped.contains(x) implies stack@.contains(x) by {
                        let i = choose|i: int| 0 <= i < popped.len() && popped[i] == x;
                        assert(stack@[i] == x);
                    }
                    assert forall|x: usize, k: int|
                        out@.contains(x) && 0 <= k < ids[x as int].derived.len() implies out@.contains(
                        #[trigger] ids[x as int].derived[k],
                    ) || stack@.contains(ids[x as int].derived[k]) by {
                        let y = ids[x as int].derived[k];
                        if x == id {
                            assert(stack@[popped.len() + k] == y);
                        } else {
                            let i = choose|i: int| 0 <= i < out@.len() && out@[i] == x;
                            assert(out0[i] == x);
                            assert(out0.contains(x));
                            assert(out0.contains(y) || had.contains(y));
                        }
                    }
                }
            } else {
                proof {
                    assert forall|x: usize, k: int|
                        out@.contains(x) && 0 <= k < ids[x as int].derived.len() implies out@.contains(
                        #[trigger] ids[x as int].derived[k],
                    ) || stack@.contains(ids[x as int].derived[k]) by {
                        let y = ids[x as int].derived[k];
                        assert(out0.contains(y) || had.contains(y));
                    }
                }
            }
        }
        proof {
            assert forall|id: usize| #[trigger]
                out@.contains(id) implies id < n && derives(ids, base as int, id as int) by {
                let i = choose|i: int| 0 <= i < out@.len() && out@[i] == id;
                assert(out@[i] < n);
            }
            assert forall|id: usize|
                id < n && derives(ids, base as int, id as int) implies #[trigger] out@.contains(
                id,
            ) by {
                let m = choose|m: nat| #[trigger] derives_in(ids, base as int, id as int, m);
                lemma_closed_holds_all(ids, out@, base as int, id as int, m);
            }
        }
        out
    }
}

/// Whether a number is among some.
pub fn contains_id(s: &[usize], id: usize) -> (r: bool)
    ensures
        r == s@.contains(id),
{
    let mut i: usize = 0;
    while i < s.len()
        invariant
            i <= s@.len(),
            forall|k: int| 0 <= k < i ==> s@[k] != id,
        decreases s@.len() - i,
    {
        if s[i] == id {
            return true;
        }
        i += 1;
    }
    false
}

} // verus!
