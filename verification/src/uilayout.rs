//! Definition and storage of the client's UI elements, one layering per
//! screen. Widgets are a closed tagged union of the kinds the layouts
//! use, dispatched by exhaustive matching rather than runtime type
//! inspection. The presentation itself (layout, rendering, input
//! dispatch) lives outside this crate and only reads this registry.

use vstd::prelude::*;

verus! {

/// The client's top-level screens.
#[derive(PartialEq, Eq, Structural, Clone, Copy, Debug)]
pub enum Screen {
    Intro,
    Menu,
    ServerList,
    Options,
    Run,
}

/// One UI element, as a closed union of widget kinds.
pub enum Widget {
    Button { id: u64, label: String },
    Label { id: u64, text: String },
    Pane { id: u64 },
    Checkbox { id: u64, enabled: bool, label: String },
    TextField { id: u64, text: String },
    Chatbox { id: u64, history: Vec<String> },
    GameArea { id: u64 },
}

/// The widgets shown on one screen, in draw order.
pub struct Layering {
    pub widgets: Vec<Widget>,
}

/// A screen together with its layering.
pub struct ScreenLayer {
    pub screen: Screen,
    pub layering: Layering,
}

/// Each screen is stored at most once.
pub open spec fn screens_distinct(layers: Seq<ScreenLayer>) -> bool {
    forall|i: int, j: int|
        #![trigger layers[i], layers[j]]
        0 <= i < j < layers.len() ==> layers[i].screen != layers[j].screen
}

/// Some stored layer belongs to this screen.
pub open spec fn screen_present(layers: Seq<ScreenLayer>, s: Screen) -> bool {
    exists|i: int| 0 <= i < layers.len() && layers[i].screen == s
}

/// Index of the layer for this screen; meaningful when present, and then
/// unique when the screens are distinct.
pub open spec fn screen_index(layers: Seq<ScreenLayer>, s: Screen) -> int {
    choose|i: int| 0 <= i < layers.len() && layers[i].screen == s
}

/// `UILayout` is responsible for the definition and storage of UI
/// elements, keyed by the screen they belong to.
pub struct UILayout {
    pub layers: Vec<ScreenLayer>,
}

impl UILayout {
    /// Structural invariant: at most one layering per screen.
    pub open spec fn wf(self) -> bool {
        screens_distinct(self.layers@)
    }

    /// The layering associated with the specified screen, if any.
    pub fn get_screen_layering(&self, screen: Screen) -> (r: Option<&Layering>)
        requires
            self.wf(),
        ensures
            match r {
                Option::Some(l) => screen_present(self.layers@, screen) && *l == self.layers@[
                    screen_index(self.layers@, screen)
                ].layering,
                Option::None => !screen_present(self.layers@, screen),
            },
    {
        let mut i: usize = 0;
        while i < self.layers.len()
            invariant
                self.wf(),
                i <= self.layers@.len(),
                forall|k: int| 0 <= k < i ==> self.layers@[k].screen != screen,
            decreases self.layers@.len() - i,
        {
            if self.layers[i].screen == screen {
                proof {
                    assert(screen_present(self.layers@, screen));
                    let j = screen_index(self.layers@, screen);
                    assert(0 <= j < self.layers@.len() && self.layers@[j].screen == screen);
                    if (i as int) < j {
                        assert(self.layers@[i as int].screen != self.layers@[j].screen);
                    } else if j < i as int {
                        assert(self.layers@[j].screen != self.layers@[i as int].screen);
                    }
                }
                return Some(&self.layers[i].layering);
            }
            i = i + 1;
        }
        None
    }

    /// Get all layers associated with the specified screen, mutably.
    pub fn get_screen_layering_mut(&mut self, screen: Screen) -> (r: Option<&mut Layering>)
        requires
            old(self).wf(),
        ensures
            final(self).wf(),
            match r {
                Option::Some(l) => {
                    let j = screen_index(old(self).layers@, screen);
                    &&& screen_present(old(self).layers@, screen)
                    &&& *l == old(self).layers@[j].layering
                    &&& final(self).layers@.len() == old(self).layers@.len()
                    &&& forall|k: int|
                        0 <= k < old(self).layers@.len() && k != j ==> final(self).layers@[k]
                            == old(self).layers@[k]
                    &&& final(self).layers@[j].screen == old(self).layers@[j].screen
                    &&& final(self).layers@[j].layering == *final(l)
                },
                Option::None => !screen_present(old(self).layers@, screen) && *final(self) == *old(
                    self,
                ),
            },
    {
        let n = self.layers.len();
        let mut i: usize = 0;
        while i < n
            invariant
                *self == *old(self),
                old(self).wf(),
                n == self.layers@.len(),
                i <= n,
                forall|k: int| 0 <= k < i ==> self.layers@[k].screen != screen,
            decreases n - i,
        {
            if self.layers[i].screen == screen {
                proof {
                    assert(old(self).layers@[i as int].screen == screen);
                    assert(screen_present(old(self).layers@, screen));
                    let j = screen_index(old(self).layers@, screen);
                    assert(0 <= j < old(self).layers@.len() && old(self).layers@[j].screen
                        == screen);
                    if (i as int) < j {
                        assert(old(self).layers@[i as int].screen != old(self).layers@[j].screen);
                    } else if j < i as int {
                        assert(old(self).layers@[j].screen != old(self).layers@[i as int].screen);
                    }
                }
                let entry = &mut self.layers[i];
                return Some(&mut entry.layering);
            }
            i = i + 1;
        }
        None
    }
}

} // verus!
