//! Keyboard shortcut bindings: defaults, migration of legacy defaults, and normalization of a
//! user configuration to exactly one binding per action and scope.
use vstd::prelude::*;

verus! {

broadcast use vstd::string::group_string_axioms;

/// A view action that a shortcut triggers.
#[derive(Debug, Clone, Copy, PartialEq, Eq, Structural, Hash)]
pub enum ShortcutAction {
    ZoomToSelection,
    ZoomToFull,
    FillScreenHeight,
    RecenterYAll,
}

impl ShortcutAction {
    /// Every action, in configuration order.
    pub const ALL: [ShortcutAction; 4] = [
        ShortcutAction::ZoomToSelection,
        ShortcutAction::ZoomToFull,
        ShortcutAction::FillScreenHeight,
        ShortcutAction::RecenterYAll,
    ];

    /// User-facing name of the action.
    pub fn label(self) -> (r: &'static str)
        ensures
            r@ == action_label(self),
    {
        match self {
            ShortcutAction::ZoomToSelection => "Zoom To Selection",
            ShortcutAction::ZoomToFull => "Reset X Zoom",
            ShortcutAction::FillScreenHeight => "Fill Screen Height",
            ShortcutAction::RecenterYAll => "Recenter Y",
        }
    }
}

/// The label of each action.
pub open spec fn action_label(a: ShortcutAction) -> Seq<char> {
    match a {
        ShortcutAction::ZoomToSelection => "Zoom To Selection"@,
        ShortcutAction::ZoomToFull => "Reset X Zoom"@,
        ShortcutAction::FillScreenHeight => "Fill Screen Height"@,
        ShortcutAction::RecenterYAll => "Recenter Y"@,
    }
}

/// Whether a shortcut needs modifier keys (`Global`) or fires on a plain key while the
/// pointer is over a navigation surface (`OneHand`).
#[derive(Debug, Clone, Copy, PartialEq, Eq, Structural, Hash)]
pub enum ShortcutScope {
    Global,
    OneHand,
}

impl Default for ShortcutScope {
    fn default() -> (r: Self)
        ensures
            r == ShortcutScope::Global,
    {
        ShortcutScope::Global
    }
}

impl ShortcutScope {
    /// Every scope, in configuration order.
    pub const ALL: [ShortcutScope; 2] = [ShortcutScope::Global, ShortcutScope::OneHand];

    /// User-facing name of the scope.
    pub fn label(self) -> (r: &'static str)
        ensures
            r@ == scope_label(self),
    {
        match self {
            ShortcutScope::Global => "Modifier shortcuts",
            ShortcutScope::OneHand => "One-hand shortcuts",
        }
    }
}

/// The label of each scope.
pub open spec fn scope_label(s: ShortcutScope) -> Seq<char> {
    match s {
        ShortcutScope::Global => "Modifier shortcuts"@,
        ShortcutScope::OneHand => "One-hand shortcuts"@,
    }
}

/// The action at position `i` of `ShortcutAction::ALL`.
pub open spec fn action_at(i: int) -> ShortcutAction {
    if i == 0 {
        ShortcutAction::ZoomToSelection
    } else if i == 1 {
        ShortcutAction::ZoomToFull
    } else if i == 2 {
        ShortcutAction::FillScreenHeight
    } else {
        ShortcutAction::RecenterYAll
    }
}

/// The scope at position `i` of `ShortcutScope::ALL`.
pub open spec fn scope_at(i: int) -> ShortcutScope {
    if i == 0 {
        ShortcutScope::Global
    } else {
        ShortcutScope::OneHand
    }
}

/// One key binding of an action in a scope.
#[derive(Debug, Clone, PartialEq, Eq)]
pub struct ShortcutBinding {
    pub action: ShortcutAction,
    pub scope: ShortcutScope,
    pub key: String,
    pub command: bool,
    pub ctrl: bool,
    pub shift: bool,
    pub alt: bool,
}

/// A binding as a mathematical value: its key is a sequence of characters.
pub struct BindingView {
    pub action: ShortcutAction,
    pub scope: ShortcutScope,
    pub key: Seq<char>,
    pub command: bool,
    pub ctrl: bool,
    pub shift: bool,
    pub alt: bool,
}

impl View for ShortcutBinding {
    type V = BindingView;

    open spec fn view(&self) -> BindingView {
        BindingView {
            action: self.action,
            scope: self.scope,
            key: self.key@,
            command: self.command,
            ctrl: self.ctrl,
            shift: self.shift,
            alt: self.alt,
        }
    }
}

/// A binding without modifiers.
pub open spec fn plain_binding(action: ShortcutAction, key: Seq<char>) -> BindingView {
    BindingView {
        action,
        scope: ShortcutScope::Global,
        key,
        command: false,
        ctrl: false,
        shift: false,
        alt: false,
    }
}

/// `b` with scope `s`.
pub open spec fn with_scope_spec(b: BindingView, s: ShortcutScope) -> BindingView {
    BindingView { scope: s, ..b }
}

/// `b` with the command modifier.
pub open spec fn with_command_spec(b: BindingView) -> BindingView {
    BindingView { command: true, ..b }
}

/// `b` with the shift modifier.
pub open spec fn with_shift_spec(b: BindingView) -> BindingView {
    BindingView { shift: true, ..b }
}

/// A binding with the command and shift modifiers.
pub open spec fn command_shift(action: ShortcutAction, scope: ShortcutScope, key: Seq<char>) -> BindingView {
    with_shift_spec(with_command_spec(with_scope_spec(plain_binding(action, key), scope)))
}

/// The default binding of each action and scope.
pub open spec fn default_binding(action: ShortcutAction, scope: ShortcutScope) -> BindingView {
    match (action, scope) {
        (ShortcutAction::ZoomToSelection, ShortcutScope::Global) => command_shift(action, scope, "L"@),
        (ShortcutAction::ZoomToSelection, ShortcutScope::OneHand) => with_scope_spec(
            plain_binding(action, "S"@),
            scope,
        ),
        (ShortcutAction::ZoomToFull, ShortcutScope::Global) => with_command_spec(
            with_scope_spec(plain_binding(action, "0"@), scope),
        ),
        (ShortcutAction::ZoomToFull, ShortcutScope::OneHand) => with_scope_spec(
            plain_binding(action, "R"@),
            scope,
        ),
        (ShortcutAction::FillScreenHeight, ShortcutScope::Global) => command_shift(action, scope, "H"@),
        (ShortcutAction::FillScreenHeight, ShortcutScope::OneHand) => with_scope_spec(
            plain_binding(action, "H"@),
            scope,
        ),
        (ShortcutAction::RecenterYAll, ShortcutScope::Global) => command_shift(action, scope, "Y"@),
        (ShortcutAction::RecenterYAll, ShortcutScope::OneHand) => with_scope_spec(
            plain_binding(action, "Y"@),
            scope,
        ),
    }
}

/// The earlier default of zoom-to-selection, on `key` with command and shift.
pub open spec fn legacy_zoom_to_selection(key: Seq<char>) -> BindingView {
    command_shift(ShortcutAction::ZoomToSelection, ShortcutScope::Global, key)
}

/// The earlier default of fill-screen-height, on `key` with command and shift.
pub open spec fn legacy_fill_screen_height(key: Seq<char>) -> BindingView {
    command_shift(ShortcutAction::FillScreenHeight, ShortcutScope::Global, key)
}

/// A binding equal to an earlier default becomes the current default; others stay.
pub open spec fn migrated(b: BindingView) -> BindingView {
    if b == legacy_zoom_to_selection("Z"@) || b == legacy_zoom_to_selection("X"@) {
        default_binding(ShortcutAction::ZoomToSelection, ShortcutScope::Global)
    } else if b == legacy_fill_screen_height("F"@) {
        default_binding(ShortcutAction::FillScreenHeight, ShortcutScope::Global)
    } else {
        b
    }
}

/// Law: the earlier defaults Cmd/Ctrl+Shift+Z and Cmd/Ctrl+Shift+X of zoom-to-selection, and
/// Cmd/Ctrl+Shift+F of fill-screen-height, become the current defaults of those actions; every
/// other binding is kept as it is.
pub proof fn legacy_defaults_migrate(b: BindingView)
    ensures
        migrated(command_shift(ShortcutAction::ZoomToSelection, ShortcutScope::Global, "Z"@)) == default_binding(
            ShortcutAction::ZoomToSelection,
            ShortcutScope::Global,
        ),
        migrated(command_shift(ShortcutAction::ZoomToSelection, ShortcutScope::Global, "X"@)) == default_binding(
            ShortcutAction::ZoomToSelection,
            ShortcutScope::Global,
        ),
        migrated(command_shift(ShortcutAction::FillScreenHeight, ShortcutScope::Global, "F"@)) == default_binding(
            ShortcutAction::FillScreenHeight,
            ShortcutScope::Global,
        ),
        b != command_shift(ShortcutAction::ZoomToSelection, ShortcutScope::Global, "Z"@) && b != command_shift(
            ShortcutAction::ZoomToSelection,
            ShortcutScope::Global,
            "X"@,
        ) && b != command_shift(ShortcutAction::FillScreenHeight, ShortcutScope::Global, "F"@) ==> migrated(b)
            == b,
{
}

/// Whether `c` has the Unicode `White_Space` property, the whitespace `str::trim` removes.
pub open spec fn is_white_space(c: char) -> bool {
    ('\u{9}' <= c && c <= '\u{d}') || c == ' ' || c == '\u{85}' || c == '\u{a0}' || c == '\u{1680}'
        || ('\u{2000}' <= c && c <= '\u{200a}') || c == '\u{2028}' || c == '\u{2029}' || c
        == '\u{202f}' || c == '\u{205f}' || c == '\u{3000}'
}

/// `s` without its leading whitespace.
pub open spec fn without_leading_white_space(s: Seq<char>) -> Seq<char>
    decreases s.len(),
{
    if s.len() > 0 && is_white_space(s[0]) {
        without_leading_white_space(s.drop_first())
    } else {
        s
    }
}

/// `s` without its trailing whitespace.
pub open spec fn without_trailing_white_space(s: Seq<char>) -> Seq<char>
    decreases s.len(),
{
    if s.len() > 0 && is_white_space(s.last()) {
        without_trailing_white_space(s.drop_last())
    } else {
        s
    }
}

/// `s` without leading and trailing whitespace.
pub open spec fn trimmed(s: Seq<char>) -> Seq<char> {
    without_trailing_white_space(without_leading_white_space(s))
}

/// `str::trim`: the string without leading and trailing whitespace (the characters with the
/// Unicode `White_Space` property).
#[verifier::external_body]
fn trim(s: &str) -> (r: &str)
    ensures
        r@ == trimmed(s@),
{
    s.trim()
}

/// The name of whether `egui::Key::from_name` recognizes a key name.
pub uninterp spec fn egui_key_name_known(name: Seq<char>) -> bool;

/// `egui::Key::from_name`: the contract says only that whether it returns a key is named
/// `egui_key_name_known` of the given name; which names egui accepts is not stated.
#[verifier::external_body]
fn key_from_name_is_some(name: &str) -> (r: bool)
    ensures
        r == egui_key_name_known(name@),
{
    match egui::Key::from_name(name) {
        Some(_) => true,
        None => false,
    }
}

/// Whether a binding's key, trimmed, names a key egui knows.
pub open spec fn key_recognized(key: Seq<char>) -> bool {
    egui_key_name_known(trimmed(key))
}

/// Number of modifiers of a binding.
pub open spec fn modifier_count(b: BindingView) -> nat {
    (if b.command { 1nat } else { 0nat }) + (if b.ctrl { 1nat } else { 0nat }) + (if b.shift {
        1nat
    } else {
        0nat
    }) + (if b.alt { 1nat } else { 0nat })
}

impl ShortcutBinding {
    /// A binding of `action` to `key` in the global scope, without modifiers.
    pub fn new(action: ShortcutAction, key: &str) -> (r: Self)
        ensures
            r@ == plain_binding(action, key@),
    {
        ShortcutBinding {
            action,
            scope: ShortcutScope::Global,
            key: key.to_string(),
            command: false,
            ctrl: false,
            shift: false,
            alt: false,
        }
    }

    /// The same binding with the command modifier.
    pub fn with_command(self) -> (r: Self)
        ensures
            r@ == with_command_spec(self@),
    {
        let mut b = self;
        b.command = true;
        b
    }

    /// The same binding in `scope`.
    pub fn with_scope(self, scope: ShortcutScope) -> (r: Self)
        ensures
            r@ == with_scope_spec(self@, scope),
    {
        let mut b = self;
        b.scope = scope;
        b
    }

    /// The same binding with the shift modifier.
    pub fn with_shift(self) -> (r: Self)
        ensures
            r@ == with_shift_spec(self@),
    {
        let mut b = self;
        b.shift = true;
        b
    }

    /// Number of modifiers; a binding with more modifiers is matched first.
    pub fn specificity(&self) -> (r: usize)
        ensures
            r == modifier_count(self@),
    {
        (if self.command { 1usize } else { 0 }) + (if self.ctrl { 1usize } else { 0 }) + (
        if self.shift { 1usize } else { 0 }) + (if self.alt { 1usize } else { 0 })
    }

    /// Whether the key, trimmed, names a key egui knows.
    pub fn has_valid_key(&self) -> (r: bool)
        ensures
            r == key_recognized(self.key@),
    {
        key_from_name_is_some(trim(self.key.as_str()))
    }

    /// A copy of the binding.
    pub fn duplicate(&self) -> (r: Self)
        ensures
            r@ == self@,
    {
        ShortcutBinding {
            action: self.action,
            scope: self.scope,
            key: self.key.clone(),
            command: self.command,
            ctrl: self.ctrl,
            shift: self.shift,
            alt: self.alt,
        }
    }

    /// Whether two bindings are equal field by field.
    pub fn same_as(&self, other: &ShortcutBinding) -> (r: bool)
        ensures
            r == (self@ == other@),
    {
        self.action == other.action && self.scope == other.scope && self.key == other.key
            && self.command == other.command && self.ctrl == other.ctrl && self.shift
            == other.shift && self.alt == other.alt
    }
}


/// The list of bindings of a configuration.
#[derive(Debug, Clone, PartialEq, Eq)]
pub struct ShortcutConfig {
    pub bindings: Vec<ShortcutBinding>,
}

/// The views of a list of bindings.
pub open spec fn bindings_view(bs: Seq<ShortcutBinding>) -> Seq<BindingView> {
    bs.map_values(|b: ShortcutBinding| b@)
}

/// The binding at position `i` of a normalized list: the `i / 2`-th action in the `i % 2`-th
/// scope.
pub open spec fn slot_action(i: int) -> ShortcutAction {
    action_at(i / 2)
}

/// The scope of position `i` of a normalized list.
pub open spec fn slot_scope(i: int) -> ShortcutScope {
    scope_at(i % 2)
}

/// The default configuration: the default binding of every action in every scope.
pub open spec fn default_bindings() -> Seq<BindingView> {
    Seq::new(8, |i: int| default_binding(slot_action(i), slot_scope(i)))
}

/// `b` is bound to `action` in `scope`.
pub open spec fn binds(b: BindingView, action: ShortcutAction, scope: ShortcutScope) -> bool {
    b.action == action && b.scope == scope
}

/// The first binding from position `k` on that binds `action` in `scope` and whose key, after
/// migration of legacy defaults, egui recognizes; migrated.
pub open spec fn first_valid_from(
    bs: Seq<BindingView>,
    action: ShortcutAction,
    scope: ShortcutScope,
    k: int,
) -> Option<BindingView>
    decreases bs.len() - k,
{
    if k < 0 || k >= bs.len() {
        None
    } else if binds(bs[k], action, scope) && key_recognized(migrated(bs[k]).key) {
        Some(migrated(bs[k]))
    } else {
        first_valid_from(bs, action, scope, k + 1)
    }
}

/// The binding normalization keeps for `action` in `scope`: the first valid one, or else the
/// default.
pub open spec fn normalized_binding(
    bs: Seq<BindingView>,
    action: ShortcutAction,
    scope: ShortcutScope,
) -> BindingView {
    match first_valid_from(bs, action, scope, 0) {
        Some(b) => b,
        None => default_binding(action, scope),
    }
}

/// The bindings after normalization: one per action and scope, in configuration order.
pub open spec fn normalized(bs: Seq<BindingView>) -> Seq<BindingView> {
    Seq::new(8, |i: int| normalized_binding(bs, slot_action(i), slot_scope(i)))
}

impl ShortcutConfig {
    /// The default binding of `action` in `scope`.
    pub fn default_binding_for(action: ShortcutAction, scope: ShortcutScope) -> (r: ShortcutBinding)
        ensures
            r@ == default_binding(action, scope),
    {
        match (action, scope) {
            (ShortcutAction::ZoomToSelection, ShortcutScope::Global) => {
                ShortcutBinding::new(action, "L").with_scope(scope).with_command().with_shift()
            },
            (ShortcutAction::ZoomToSelection, ShortcutScope::OneHand) => {
                ShortcutBinding::new(action, "S").with_scope(scope)
            },
            (ShortcutAction::ZoomToFull, ShortcutScope::Global) => {
                ShortcutBinding::new(action, "0").with_scope(scope).with_command()
            },
            (ShortcutAction::ZoomToFull, ShortcutScope::OneHand) => {
                ShortcutBinding::new(action, "R").with_scope(scope)
            },
            (ShortcutAction::FillScreenHeight, ShortcutScope::Global) => {
                ShortcutBinding::new(action, "H").with_scope(scope).with_command().with_shift()
            },
            (ShortcutAction::FillScreenHeight, ShortcutScope::OneHand) => {
                ShortcutBinding::new(action, "H").with_scope(scope)
            },
            (ShortcutAction::RecenterYAll, ShortcutScope::Global) => {
                ShortcutBinding::new(action, "Y").with_scope(scope).with_command().with_shift()
            },
            (ShortcutAction::RecenterYAll, ShortcutScope::OneHand) => {
                ShortcutBinding::new(action, "Y").with_scope(scope)
            },
        }
    }

    /// Replace a binding equal to an earlier default by the current default.
    pub fn migrate_legacy_default(binding: ShortcutBinding) -> (r: ShortcutBinding)
        ensures
            r@ == migrated(binding@),
    {
        if binding.same_as(&legacy_zoom_to_selection_binding("Z")) || binding.same_as(
            &legacy_zoom_to_selection_binding("X"),
        ) {
            return Self::default_binding_for(
                ShortcutAction::ZoomToSelection,
                ShortcutScope::Global,
            );
        }
        if binding.same_as(&legacy_fill_screen_height_binding("F")) {
            return Self::default_binding_for(
                ShortcutAction::FillScreenHeight,
                ShortcutScope::Global,
            );
        }
        binding
    }

    /// Keep, for every action and scope, the first binding whose (migrated) key is valid, and
    /// the default where there is none; drop every other binding.
    pub fn normalize(&mut self)
        ensures
            bindings_view(final(self).bindings@) == normalized(bindings_view(old(self).bindings@)),
    {
        let ghost bs = bindings_view(self.bindings@);
        let mut normalized_list: Vec<ShortcutBinding> = Vec::with_capacity(8);
        let mut ai: usize = 0;
        while ai < 4
            invariant
                ai <= 4,
                bs == bindings_view(self.bindings@),
                normalized_list.len() == 2 * ai,
                forall|i: int|
                    0 <= i < 2 * ai ==> (#[trigger] normalized_list@[i])@ == normalized(bs)[i],
            decreases 4 - ai,
        {
            let action = ShortcutAction::ALL[ai];
            let mut si: usize = 0;
            while si < 2
                invariant
                    ai < 4,
                    si <= 2,
                    action == action_at(ai as int),
                    bs == bindings_view(self.bindings@),
                    normalized_list.len() == 2 * ai + si,
                    forall|i: int|
                        0 <= i < 2 * ai + si ==> (#[trigger] normalized_list@[i])@
                            == normalized(bs)[i],
                decreases 2 - si,
            {
                let scope = ShortcutScope::ALL[si];
                let chosen = self.first_valid(action, scope);
                let binding = match chosen {
                    Some(b) => b,
                    None => Self::default_binding_for(action, scope),
                };
                proof {
                    let i = 2 * ai + si;
                    assert(slot_action(i as int) == action);
                    assert(slot_scope(i as int) == scope);
                }
                normalized_list.push(binding);
                si += 1;
            }
            ai += 1;
        }
        self.bindings = normalized_list;
        proof {
            assert(bindings_view(self.bindings@) =~= normalized(bs));
        }
    }

    /// The first binding of `action` in `scope` whose migrated key is valid, migrated.
    fn first_valid(&self, action: ShortcutAction, scope: ShortcutScope) -> (r: Option<
        ShortcutBinding,
    >)
        ensures
            match r {
                Some(b) => first_valid_from(bindings_view(self.bindings@), action, scope, 0)
                    == Some(b@),
                None => first_valid_from(bindings_view(self.bindings@), action, scope, 0)
                    is None,
            },
    {
        let ghost bs = bindings_view(self.bindings@);
        let mut k: usize = 0;
        while k < self.bindings.len()
            invariant
                k <= self.bindings.len(),
                bs == bindings_view(self.bindings@),
                first_valid_from(bs, action, scope, 0) == first_valid_from(bs, action, scope, k as int),
            decreases self.bindings.len() - k,
        {
            let binding = &self.bindings[k];
            if binding.action == action && binding.scope == scope {
                let candidate = Self::migrate_legacy_default(binding.duplicate());
                if candidate.has_valid_key() {
                    return Some(candidate);
                }
            }
            k += 1;
        }
        None
    }
}

impl Default for ShortcutConfig {
    /// The default binding of every action in every scope, actions outermost.
    fn default() -> (r: Self)
        ensures
            bindings_view(r.bindings@) == default_bindings(),
    {
        let mut bindings: Vec<ShortcutBinding> = Vec::with_capacity(8);
        let mut ai: usize = 0;
        while ai < 4
            invariant
                ai <= 4,
                bindings.len() == 2 * ai,
                forall|i: int|
                    0 <= i < 2 * ai ==> (#[trigger] bindings@[i])@ == default_bindings()[i],
            decreases 4 - ai,
        {
            let action = ShortcutAction::ALL[ai];
            let mut si: usize = 0;
            while si < 2
                invariant
                    ai < 4,
                    si <= 2,
                    action == action_at(ai as int),
                    bindings.len() == 2 * ai + si,
                    forall|i: int|
                        0 <= i < 2 * ai + si ==> (#[trigger] bindings@[i])@ == default_bindings()[i],
                decreases 2 - si,
            {
                let scope = ShortcutScope::ALL[si];
                proof {
                    let i = 2 * ai + si;
                    assert(slot_action(i as int) == action);
                    assert(slot_scope(i as int) == scope);
                }
                bindings.push(Self::default_binding_for(action, scope));
                si += 1;
            }
            ai += 1;
        }
        let r = ShortcutConfig { bindings };
        proof {
            assert(bindings_view(r.bindings@) =~= default_bindings());
        }
        r
    }
}

impl Default for ShortcutBinding {
    /// The default global binding of zoom-to-selection.
    fn default() -> (r: Self)
        ensures
            r@ == default_binding(ShortcutAction::ZoomToSelection, ShortcutScope::Global),
    {
        ShortcutConfig::default_binding_for(ShortcutAction::ZoomToSelection, ShortcutScope::Global)
    }
}

/// The earlier default binding of zoom-to-selection on `key`.
pub fn legacy_zoom_to_selection_binding(key: &str) -> (r: ShortcutBinding)
    ensures
        r@ == legacy_zoom_to_selection(key@),
{
    ShortcutBinding::new(ShortcutAction::ZoomToSelection, key).with_scope(
        ShortcutScope::Global,
    ).with_command().with_shift()
}

/// The earlier default binding of fill-screen-height on `key`.
pub fn legacy_fill_screen_height_binding(key: &str) -> (r: ShortcutBinding)
    ensures
        r@ == legacy_fill_screen_height(key@),
{
    ShortcutBinding::new(ShortcutAction::FillScreenHeight, key).with_scope(
        ShortcutScope::Global,
    ).with_command().with_shift()
}


proof fn lemma_first_valid_binds(
    bs: Seq<BindingView>,
    action: ShortcutAction,
    scope: ShortcutScope,
    k: int,
)
    ensures
        first_valid_from(bs, action, scope, k) matches Some(b) ==> binds(b, action, scope)
            && key_recognized(b.key),
    decreases bs.len() - k,
{
    if 0 <= k < bs.len() && !(binds(bs[k], action, scope) && key_recognized(
        migrated(bs[k]).key,
    )) {
        lemma_first_valid_binds(bs, action, scope, k + 1);
    }
}

/// Law: after normalization there is exactly one binding per action and scope, the `i / 2`-th
/// action in the `i % 2`-th scope at position `i`, and each has a recognized key or is the
/// default.
pub proof fn normalized_has_one_binding_per_action_and_scope(bs: Seq<BindingView>, i: int)
    requires
        0 <= i < 8,
    ensures
        normalized(bs).len() == 8,
        binds(normalized(bs)[i], slot_action(i), slot_scope(i)),
        key_recognized(normalized(bs)[i].key) || normalized(bs)[i] == default_binding(
            slot_action(i),
            slot_scope(i),
        ),
{
    lemma_first_valid_binds(bs, slot_action(i), slot_scope(i), 0);
}

/// Law: a binding kept by normalization is the first binding of its action and scope that
/// has a recognized (migrated) key; earlier bindings of that action and scope are dropped.
pub proof fn normalize_keeps_first_valid_binding(bs: Seq<BindingView>, i: int, k: int)
    requires
        0 <= i < 8,
        0 <= k < bs.len(),
        binds(bs[k], slot_action(i), slot_scope(i)),
        key_recognized(migrated(bs[k]).key),
        forall|j: int|
            0 <= j < k && binds(#[trigger] bs[j], slot_action(i), slot_scope(i)) ==> !key_recognized(
                migrated(bs[j]).key,
            ),
    ensures
        normalized(bs)[i] == migrated(bs[k]),
{
    lemma_first_valid_skips(bs, slot_action(i), slot_scope(i), 0, k);
}

proof fn lemma_first_valid_is_migrated(
    bs: Seq<BindingView>,
    action: ShortcutAction,
    scope: ShortcutScope,
    k: int,
)
    ensures
        first_valid_from(bs, action, scope, k) matches Some(b) ==> key_recognized(b.key) && exists|
            c: BindingView,
        | b == migrated(c),
    decreases bs.len() - k,
{
    if 0 <= k < bs.len() {
        if binds(bs[k], action, scope) && key_recognized(migrated(bs[k]).key) {
            assert(first_valid_from(bs, action, scope, k) == Some(migrated(bs[k])));
        } else {
            lemma_first_valid_is_migrated(bs, action, scope, k + 1);
        }
    }
}

proof fn lemma_first_valid_skips(
    bs: Seq<BindingView>,
    action: ShortcutAction,
    scope: ShortcutScope,
    m: int,
    k: int,
)
    requires
        0 <= m <= k < bs.len(),
        forall|j: int|
            m <= j < k && binds(#[trigger] bs[j], action, scope) ==> !key_recognized(
                migrated(bs[j]).key,
            ),
    ensures
        first_valid_from(bs, action, scope, m) == first_valid_from(bs, action, scope, k),
    decreases k - m,
{
    if m < k {
        lemma_first_valid_skips(bs, action, scope, m + 1, k);
    }
}

proof fn lemma_single_binding_kept(bs: Seq<BindingView>, i: int)
    requires
        0 <= i < 8,
        bs.len() == 8,
        forall|j: int| 0 <= j < 8 ==> binds(#[trigger] bs[j], slot_action(j), slot_scope(j)),
        key_recognized(bs[i].key),
        migrated(bs[i]) == bs[i],
    ensures
        normalized(bs)[i] == bs[i],
{
    assert forall|j: int| 0 <= j < i && binds(#[trigger] bs[j], slot_action(i), slot_scope(i)) implies !key_recognized(
        migrated(bs[j]).key,
    ) by {
        assert(binds(bs[j], slot_action(j), slot_scope(j)));
        assert(j / 2 != i / 2 || j % 2 != i % 2);
    }
    normalize_keeps_first_valid_binding(bs, i, i);
}

proof fn lemma_first_valid_none(bs: Seq<BindingView>, a: ShortcutAction, sc: ShortcutScope, k: int)
    requires
        0 <= k,
        forall|j: int|
            k <= j < bs.len() && binds(#[trigger] bs[j], a, sc) ==> !key_recognized(migrated(bs[j]).key),
    ensures
        first_valid_from(bs, a, sc, k) is None,
    decreases bs.len() - k,
{
    if k < bs.len() {
        lemma_first_valid_none(bs, a, sc, k + 1);
    }
}

/// A slot whose only binding has an unrecognized key normalizes to the default.
proof fn lemma_unrecognized_slot_defaults(bs: Seq<BindingView>, i: int)
    requires
        0 <= i < 8,
        bs.len() == 8,
        forall|j: int| 0 <= j < 8 ==> binds(#[trigger] bs[j], slot_action(j), slot_scope(j)),
        !key_recognized(migrated(bs[i]).key),
    ensures
        normalized(bs)[i] == default_binding(slot_action(i), slot_scope(i)),
{
    assert forall|j: int|
        0 <= j < bs.len() && binds(#[trigger] bs[j], slot_action(i), slot_scope(i)) implies !key_recognized(
        migrated(bs[j]).key,
    ) by {
        assert(binds(bs[j], slot_action(j), slot_scope(j)));
        if j != i {
            assert(j / 2 != i / 2 || j % 2 != i % 2);
        }
    }
    lemma_first_valid_none(bs, slot_action(i), slot_scope(i), 0);
}

proof fn lemma_key_letters()
    ensures
        "L"@ != "Z"@,
        "L"@ != "X"@,
        "H"@ != "F"@,
{
    reveal_strlit("L");
    reveal_strlit("H");
    reveal_strlit("Z");
    reveal_strlit("X");
    reveal_strlit("F");
    assert("L"@[0] != "Z"@[0]);
    assert("L"@[0] != "X"@[0]);
    assert("H"@[0] != "F"@[0]);
}

proof fn lemma_default_is_migration_fixed(a: ShortcutAction, s: ShortcutScope)
    ensures
        migrated(default_binding(a, s)) == default_binding(a, s),
{
    lemma_key_letters();
}

proof fn lemma_migrated_idempotent(c: BindingView)
    ensures
        migrated(migrated(c)) == migrated(c),
{
    lemma_default_is_migration_fixed(ShortcutAction::ZoomToSelection, ShortcutScope::Global);
    lemma_default_is_migration_fixed(ShortcutAction::FillScreenHeight, ShortcutScope::Global);
}

/// Law: normalizing twice gives what normalizing once gives.
pub proof fn normalize_is_idempotent(bs: Seq<BindingView>)
    ensures
        normalized(normalized(bs)) == normalized(bs),
{
    let n = normalized(bs);
    assert forall|j: int| 0 <= j < 8 implies binds(#[trigger] n[j], slot_action(j), slot_scope(j)) by {
        normalized_has_one_binding_per_action_and_scope(bs, j);
    }
    assert forall|i: int| 0 <= i < 8 implies #[trigger] normalized(n)[i] == n[i] by {
        normalized_has_one_binding_per_action_and_scope(bs, i);
        match first_valid_from(bs, slot_action(i), slot_scope(i), 0) {
            Some(b) => {
                lemma_first_valid_is_migrated(bs, slot_action(i), slot_scope(i), 0);
                let c = choose|c: BindingView| b == migrated(c);
                lemma_migrated_idempotent(c);
                lemma_single_binding_kept(n, i);
            },
            None => {
                lemma_default_is_migration_fixed(slot_action(i), slot_scope(i));
                if key_recognized(n[i].key) {
                    lemma_single_binding_kept(n, i);
                } else {
                    lemma_unrecognized_slot_defaults(n, i);
                }
            },
        }
    }
    assert(normalized(n) =~= n);
}

/// Law: the default configuration is already normalized.
pub proof fn default_config_is_normalized()
    ensures
        normalized(default_bindings()) == default_bindings(),
{
    let d = default_bindings();
    assert forall|i: int| 0 <= i < 8 implies #[trigger] normalized(d)[i] == d[i] by {
        assert forall|j: int| 0 <= j < 8 implies binds(#[trigger] d[j], slot_action(j), slot_scope(j)) by {}
        lemma_default_is_migration_fixed(slot_action(i), slot_scope(i));
        if key_recognized(d[i].key) {
            lemma_single_binding_kept(d, i);
        } else {
            lemma_unrecognized_slot_defaults(d, i);
        }
    }
    assert(normalized(d) =~= d);
}

/// The modifier names of a binding, each followed by `+`, in the order command, ctrl, alt,
/// shift.
pub open spec fn modifier_prefix(b: BindingView) -> Seq<char> {
    (if b.command {
        "Cmd/Ctrl+"@
    } else {
        Seq::<char>::empty()
    }) + (if b.ctrl {
        "Ctrl+"@
    } else {
        Seq::<char>::empty()
    }) + (if b.alt {
        "Alt+"@
    } else {
        Seq::<char>::empty()
    }) + (if b.shift {
        "Shift+"@
    } else {
        Seq::<char>::empty()
    })
}

impl ShortcutBinding {
    /// How a binding whose key egui does not know is shown: its modifiers and its key joined
    /// by `+`, e.g. `Cmd/Ctrl+Shift+L`.
    pub fn fallback_label(&self) -> (r: String)
        ensures
            r@ == modifier_prefix(self@) + self.key@,
    {
        proof {
            reveal_strlit("Cmd/Ctrl+");
            reveal_strlit("Ctrl+");
            reveal_strlit("Alt+");
            reveal_strlit("Shift+");
        }
        let mut label = String::new();
        if self.command {
            label.append("Cmd/Ctrl+");
        }
        if self.ctrl {
            label.append("Ctrl+");
        }
        if self.alt {
            label.append("Alt+");
        }
        if self.shift {
            label.append("Shift+");
        }
        label.append(self.key.as_str());
        proof {
            assert(label@ =~= modifier_prefix(self@) + self.key@);
        }
        label
    }
}

/// Binding `b` takes part in dispatch for `scope` with the given number of modifiers.
pub open spec fn dispatch_candidate(b: BindingView, scope: ShortcutScope, modifiers: nat) -> bool {
    b.scope == scope && key_recognized(b.key) && modifier_count(b) == modifiers
}

/// Positions of the bindings among the first `n` that are candidates for `scope` with
/// `modifiers` modifiers, in order.
pub open spec fn candidates_with(bs: Seq<BindingView>, scope: ShortcutScope, modifiers: nat, n: int) -> Seq<usize>
    decreases n,
{
    if n <= 0 {
        seq![]
    } else {
        let rest = candidates_with(bs, scope, modifiers, n - 1);
        if dispatch_candidate(bs[n - 1], scope, modifiers) {
            rest.push((n - 1) as usize)
        } else {
            rest
        }
    }
}

/// The dispatch order of `scope`: the bindings of that scope whose key egui knows, those with
/// more modifiers first, in configuration order otherwise (a stable sort by specificity).
pub open spec fn dispatch_order_spec(bs: Seq<BindingView>, scope: ShortcutScope) -> Seq<usize> {
    candidates_with(bs, scope, 4, bs.len() as int) + candidates_with(bs, scope, 3, bs.len() as int)
        + candidates_with(bs, scope, 2, bs.len() as int) + candidates_with(bs, scope, 1, bs.len() as int)
        + candidates_with(bs, scope, 0, bs.len() as int)
}

impl ShortcutConfig {
    /// Positions of the bindings to try for `scope`, in the order a key press is matched: those
    /// with a key egui knows, more specific ones (more modifiers) first, so that a plain key
    /// does not shadow the same key with modifiers.
    pub fn dispatch_order(&self, scope: ShortcutScope) -> (r: Vec<usize>)
        ensures
            r@ == dispatch_order_spec(bindings_view(self.bindings@), scope),
    {
        let ghost bs = bindings_view(self.bindings@);
        let mut r: Vec<usize> = Vec::new();
        let mut modifiers: usize = 5;
        while modifiers > 0
            invariant
                modifiers <= 5,
                bs == bindings_view(self.bindings@),
                r@ == if modifiers == 5 {
                    Seq::<usize>::empty()
                } else if modifiers == 4 {
                    candidates_with(bs, scope, 4, bs.len() as int)
                } else if modifiers == 3 {
                    candidates_with(bs, scope, 4, bs.len() as int) + candidates_with(bs, scope, 3, bs.len() as int)
                } else if modifiers == 2 {
                    candidates_with(bs, scope, 4, bs.len() as int) + candidates_with(bs, scope, 3, bs.len() as int)
                        + candidates_with(bs, scope, 2, bs.len() as int)
                } else if modifiers == 1 {
                    candidates_with(bs, scope, 4, bs.len() as int) + candidates_with(bs, scope, 3, bs.len() as int)
                        + candidates_with(bs, scope, 2, bs.len() as int) + candidates_with(bs, scope, 1, bs.len() as int)
                } else {
                    dispatch_order_spec(bs, scope)
                },
            decreases modifiers,
        {
            modifiers -= 1;
            let ghost before = r@;
            let mut i: usize = 0;
            while i < self.bindings.len()
                invariant
                    i <= self.bindings@.len(),
                    modifiers < 5,
                    bs == bindings_view(self.bindings@),
                    r@ == before + candidates_with(bs, scope, modifiers as nat, i as int),
                decreases self.bindings.len() - i,
            {
                let b = &self.bindings[i];
                if b.scope == scope && b.specificity() == modifiers && b.has_valid_key() {
                    r.push(i);
                }
                proof {
                    assert(bs[i as int] == self.bindings@[i as int]@);
                }
                i += 1;
            }
        }
        r
    }
}

/// The positions in `r` are bindings of `scope` with a known key, ordered by decreasing
/// modifier count and, among equal counts, by position; all have at least `min` modifiers.
pub open spec fn dispatch_sorted(bs: Seq<BindingView>, scope: ShortcutScope, r: Seq<usize>, min: nat) -> bool {
    &&& forall|k: int|
        0 <= k < r.len() ==> (#[trigger] r[k]) < bs.len() && bs[r[k] as int].scope == scope && key_recognized(
            bs[r[k] as int].key,
        ) && modifier_count(bs[r[k] as int]) >= min
    &&& forall|p: int, q: int|
        0 <= p < q < r.len() ==> modifier_count(bs[(#[trigger] r[p]) as int]) > modifier_count(
            bs[(#[trigger] r[q]) as int],
        ) || (modifier_count(bs[r[p] as int]) == modifier_count(bs[r[q] as int]) && r[p] < r[q])
}

proof fn lemma_candidates(bs: Seq<BindingView>, scope: ShortcutScope, m: nat, n: int)
    requires
        0 <= n <= bs.len(),
        bs.len() <= usize::MAX,
    ensures
        dispatch_sorted(bs, scope, candidates_with(bs, scope, m, n), m),
        forall|k: int|
            0 <= k < candidates_with(bs, scope, m, n).len() ==> (#[trigger] candidates_with(bs, scope, m, n)[k]) < n
                && modifier_count(bs[candidates_with(bs, scope, m, n)[k] as int]) == m,
        forall|i: int|
            0 <= i < n && dispatch_candidate(#[trigger] bs[i], scope, m) ==> candidates_with(bs, scope, m, n).contains(
                i as usize,
            ),
    decreases n,
{
    if n > 0 {
        lemma_candidates(bs, scope, m, n - 1);
        let c = candidates_with(bs, scope, m, n);
        let rest = candidates_with(bs, scope, m, n - 1);
        if dispatch_candidate(bs[n - 1], scope, m) {
            assert(c == rest.push((n - 1) as usize));
            assert forall|i: int| 0 <= i < n && dispatch_candidate(#[trigger] bs[i], scope, m) implies c.contains(
                i as usize,
            ) by {
                if i < n - 1 {
                    let k = choose|k: int| 0 <= k < rest.len() && rest[k] == i as usize;
                    assert(c[k] == i as usize);
                } else {
                    assert(c[rest.len() as int] == i as usize);
                }
            }
        }
    }
}

proof fn lemma_sorted_concat(bs: Seq<BindingView>, scope: ShortcutScope, a: Seq<usize>, b: Seq<usize>, ma: nat, mb: nat)
    requires
        dispatch_sorted(bs, scope, a, ma),
        dispatch_sorted(bs, scope, b, mb),
        forall|k: int| 0 <= k < b.len() ==> modifier_count(bs[(#[trigger] b[k]) as int]) < ma,
        mb < ma,
    ensures
        dispatch_sorted(bs, scope, a + b, mb),
{
    let r = a + b;
    assert forall|k: int| 0 <= k < r.len() implies (#[trigger] r[k]) < bs.len() && bs[r[k] as int].scope == scope
        && key_recognized(bs[r[k] as int].key) && modifier_count(bs[r[k] as int]) >= mb by {
        if k < a.len() {
            assert(r[k] == a[k]);
        } else {
            assert(r[k] == b[k - a.len()]);
        }
    }
    assert forall|p: int, q: int| 0 <= p < q < r.len() implies modifier_count(bs[(#[trigger] r[p]) as int])
        > modifier_count(bs[(#[trigger] r[q]) as int]) || (modifier_count(bs[r[p] as int]) == modifier_count(
        bs[r[q] as int],
    ) && r[p] < r[q]) by {
        if q < a.len() {
            assert(r[p] == a[p] && r[q] == a[q]);
        } else if p < a.len() {
            assert(r[p] == a[p] && r[q] == b[q - a.len()]);
        } else {
            assert(r[p] == b[p - a.len()] && r[q] == b[q - a.len()]);
        }
    }
}

/// Law: a key press in `scope` is matched against exactly the bindings of that scope whose
/// key egui knows, each once, those with more modifiers first and, among equally many
/// modifiers, in configuration order.
pub proof fn dispatch_tries_specific_bindings_first(bs: Seq<BindingView>, scope: ShortcutScope, i: int)
    requires
        bs.len() <= usize::MAX,
    ensures
        dispatch_sorted(bs, scope, dispatch_order_spec(bs, scope), 0),
        0 <= i < bs.len() ==> (dispatch_order_spec(bs, scope).contains(i as usize) <==> bs[i].scope == scope
            && key_recognized(bs[i].key)),
{
    let n = bs.len() as int;
    let c4 = candidates_with(bs, scope, 4, n);
    let c3 = candidates_with(bs, scope, 3, n);
    let c2 = candidates_with(bs, scope, 2, n);
    let c1 = candidates_with(bs, scope, 1, n);
    let c0 = candidates_with(bs, scope, 0, n);
    lemma_candidates(bs, scope, 4, n);
    lemma_candidates(bs, scope, 3, n);
    lemma_candidates(bs, scope, 2, n);
    lemma_candidates(bs, scope, 1, n);
    lemma_candidates(bs, scope, 0, n);
    lemma_sorted_concat(bs, scope, c4, c3, 4, 3);
    lemma_sorted_concat(bs, scope, c4 + c3, c2, 3, 2);
    lemma_sorted_concat(bs, scope, c4 + c3 + c2, c1, 2, 1);
    lemma_sorted_concat(bs, scope, c4 + c3 + c2 + c1, c0, 1, 0);
    let r = dispatch_order_spec(bs, scope);
    if 0 <= i < bs.len() {
        if r.contains(i as usize) {
            let k = choose|k: int| 0 <= k < r.len() && r[k] == i as usize;
            assert(r[k] < bs.len());
        }
        if bs[i].scope == scope && key_recognized(bs[i].key) {
            let m = modifier_count(bs[i]);
            assert(dispatch_candidate(bs[i], scope, m));
            let part = candidates_with(bs, scope, m, n);
            assert(part.contains(i as usize));
            let k = choose|k: int| 0 <= k < part.len() && part[k] == i as usize;
            let off: int = if m == 4 {
                0
            } else if m == 3 {
                c4.len() as int
            } else if m == 2 {
                (c4.len() + c3.len()) as int
            } else if m == 1 {
                (c4.len() + c3.len() + c2.len()) as int
            } else {
                (c4.len() + c3.len() + c2.len() + c1.len()) as int
            };
            assert(r[off + k] == i as usize);
        }
    }
}

} // verus!
