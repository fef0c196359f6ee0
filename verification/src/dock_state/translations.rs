use vstd::prelude::*;

verus! {

/// Groups together labels from different elements of the dock area.
#[derive(Clone, Debug)]
pub struct Translations {
    /// Text overrides for buttons in tab context menus.
    pub tab_context_menu: TabContextMenuTranslations,
    /// Text overrides for buttons in windows.
    pub leaf: LeafTranslations,
}

/// Specifies text in buttons displayed in the context menu displayed upon right-clicking on a tab.
#[derive(Clone, Debug)]
pub struct TabContextMenuTranslations {
    /// Button that closes the tab.
    pub close_button: String,
    /// Button that undocks the tab into a new window.
    pub eject_button: String,
}

/// Specifies text displayed in the primary buttons on a tab bar.
#[derive(Clone, Debug)]
pub struct LeafTranslations {
    /// Message in the tooltip shown while hovering over a grayed out X button of a leaf
    /// containing non-closable tabs.
    pub close_button_disabled_tooltip: String,
    /// Button that closes the entire window.
    pub close_all_button: String,
    /// Message in the tooltip shown while hovering over an X button of a window.
    /// Used when the secondary buttons are accessible from the context menu.
    pub close_all_button_menu_hint: String,
    /// Message in the tooltip shown while hovering over an X button of a window.
    /// Used when the secondary buttons are accessible using modifiers.
    pub close_all_button_modifier_hint: String,
    /// Message in the tooltip shown while hovering over an X button of a window.
    /// Used when the secondary buttons are accessible using modifiers and from the context menu.
    pub close_all_button_modifier_menu_hint: String,
    /// Message in the tooltip shown while hovering over a grayed out close window button of a window
    /// containing non-closable tabs.
    pub close_all_button_disabled_tooltip: String,
    /// Button that minimizes the window.
    pub minimize_button: String,
    /// Message in the tooltip shown while hovering over a collapse button of a leaf.
    /// Used when the secondary buttons are accessible from the context menu.
    pub minimize_button_menu_hint: String,
    /// Message in the tooltip shown while hovering over a collapse button of a leaf.
    /// Used when the secondary buttons are accessible using modifiers.
    pub minimize_button_modifier_hint: String,
    /// Message in the tooltip shown while hovering over a collapse button of a leaf.
    /// Used when the secondary buttons are accessible using modifiers and from the context menu.
    pub minimize_button_modifier_menu_hint: String,
}

impl Translations {
    /// Whether these are the default English translations.
    pub open spec fn is_english(&self) -> bool {
        self.tab_context_menu.is_english() && self.leaf.is_english()
    }

    /// Default English translations.
    pub fn english() -> (r: Self)
        ensures
            r.is_english(),
    {
        Self { tab_context_menu: TabContextMenuTranslations::english(), leaf: LeafTranslations::english() }
    }
}

impl TabContextMenuTranslations {
    /// Whether every label holds its default English text.
    pub open spec fn is_english(&self) -> bool {
        &&& self.close_button@ == "Close"@
        &&& self.eject_button@ == "Eject"@
    }

    /// Default English translations.
    pub fn english() -> (r: Self)
        ensures
            r.is_english(),
    {
        Self { close_button: "Close".to_owned(), eject_button: "Eject".to_owned() }
    }
}

impl LeafTranslations {
    /// Whether every label holds its default English text.
    pub open spec fn is_english(&self) -> bool {
        &&& self.close_button_disabled_tooltip@ == "This leaf contains non-closable tabs."@
        &&& self.close_all_button@ == "Close window"@
        &&& self.close_all_button_menu_hint@ == "Right click to close this window."@
        &&& self.close_all_button_modifier_hint@ == "Press modifier keys (Shift by default) to close this window."@
        &&& self.close_all_button_modifier_menu_hint@ == "Press modifier keys (Shift by default) or right click to close this window."@
        &&& self.close_all_button_disabled_tooltip@ == "This window contains non-closable tabs."@
        &&& self.minimize_button@ == "Minimize window"@
        &&& self.minimize_button_menu_hint@ == "Right click to minimize this window."@
        &&& self.minimize_button_modifier_hint@ == "Press modifier keys (Shift by default) to minimize this window."@
        &&& self.minimize_button_modifier_menu_hint@ == "Press modifier keys (Shift by default) or right click to minimize this window."@
    }

    /// Default English translations.
    pub fn english() -> (r: Self)
        ensures
            r.is_english(),
    {
        Self {
            close_button_disabled_tooltip: "This leaf contains non-closable tabs.".to_owned(),
            close_all_button: "Close window".to_owned(),
            close_all_button_menu_hint: "Right click to close this window.".to_owned(),
            close_all_button_modifier_hint: "Press modifier keys (Shift by default) to close this window.".to_owned(),
            close_all_button_modifier_menu_hint: "Press modifier keys (Shift by default) or right click to close this window.".to_owned(),
            close_all_button_disabled_tooltip: "This window contains non-closable tabs.".to_owned(),
            minimize_button: "Minimize window".to_owned(),
            minimize_button_menu_hint: "Right click to minimize this window.".to_owned(),
            minimize_button_modifier_hint: "Press modifier keys (Shift by default) to minimize this window.".to_owned(),
            minimize_button_modifier_menu_hint: "Press modifier keys (Shift by default) or right click to minimize this window.".to_owned(),
        }
    }
}

impl LeafTranslations {
    /// Every label of `self` holds the same text as the same label of `other`.
    pub open spec fn same_labels(&self, other: &Self) -> bool {
        &&& self.close_button_disabled_tooltip@ == other.close_button_disabled_tooltip@
        &&& self.close_all_button@ == other.close_all_button@
        &&& self.close_all_button_menu_hint@ == other.close_all_button_menu_hint@
        &&& self.close_all_button_modifier_hint@ == other.close_all_button_modifier_hint@
        &&& self.close_all_button_modifier_menu_hint@ == other.close_all_button_modifier_menu_hint@
        &&& self.close_all_button_disabled_tooltip@ == other.close_all_button_disabled_tooltip@
        &&& self.minimize_button@ == other.minimize_button@
        &&& self.minimize_button_menu_hint@ == other.minimize_button_menu_hint@
        &&& self.minimize_button_modifier_hint@ == other.minimize_button_modifier_hint@
        &&& self.minimize_button_modifier_menu_hint@ == other.minimize_button_modifier_menu_hint@
    }
}

/// The leaf labels of the default translations ([`Translations::english`]) are those
/// of [`LeafTranslations::english`], label by label.
pub proof fn lemma_english_leaf_labels(t: Translations, leaf: LeafTranslations)
    requires
        t.is_english(),
        leaf.is_english(),
    ensures
        t.leaf.same_labels(&leaf),
        t.tab_context_menu.close_button@ == "Close"@,
        t.tab_context_menu.eject_button@ == "Eject"@,
{
}

impl Translations {
    /// A copy of these translations.
    pub(crate) fn duplicate(&self) -> (r: Self)
        ensures
            r == *self,
    {
        Translations {
            tab_context_menu: TabContextMenuTranslations {
                close_button: self.tab_context_menu.close_button.clone(),
                eject_button: self.tab_context_menu.eject_button.clone(),
            },
            leaf: LeafTranslations {
                close_button_disabled_tooltip: self.leaf.close_button_disabled_tooltip.clone(),
                close_all_button: self.leaf.close_all_button.clone(),
                close_all_button_menu_hint: self.leaf.close_all_button_menu_hint.clone(),
                close_all_button_modifier_hint: self.leaf.close_all_button_modifier_hint.clone(),
                close_all_button_modifier_menu_hint: self.leaf.close_all_button_modifier_menu_hint.clone(),
                close_all_button_disabled_tooltip: self.leaf.close_all_button_disabled_tooltip.clone(),
                minimize_button: self.leaf.minimize_button.clone(),
                minimize_button_menu_hint: self.leaf.minimize_button_menu_hint.clone(),
                minimize_button_modifier_hint: self.leaf.minimize_button_modifier_hint.clone(),
                minimize_button_modifier_menu_hint: self.leaf.minimize_button_modifier_menu_hint.clone(),
            },
        }
    }
}

} // verus!
