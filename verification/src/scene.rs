use vstd::prelude::*;

verus! {

/// The number of point lights that the scene passes to the renderer at most.
pub const MAX_LIGHT_COUNT: usize = 32;

/// The number of shadows that the scene passes to the renderer at most.
pub const MAX_SHADOW_COUNT: usize = 24;

/// The number of directed lights (sun and moon).
pub const NUM_DIRECTED_LIGHTS: usize = 2;

/// Item `a` comes before item `b` when its key is smaller, or equal with a
/// smaller index: the order of a stable sort by key.
pub open spec fn comes_before(keys: Seq<i32>, a: int, b: int) -> bool {
    keys[a] < keys[b] || (keys[a] == keys[b] && a < b)
}

/// `picked` lists, in the order of a stable sort by key, the first `count`
/// items of `keys`.
pub open spec fn is_nearest(keys: Seq<i32>, picked: Seq<usize>, count: int) -> bool {
    &&& picked.len() == count
    &&& forall|i: int| 0 <= i < picked.len() ==> #[trigger] picked[i] < keys.len()
    &&& forall|i: int, j: int|
        0 <= i < j < picked.len() ==> comes_before(keys, #[trigger] picked[i] as int, #[trigger] picked[j] as int)
    &&& forall|x: int, i: int|
        0 <= x < keys.len() && !picked.contains(x as usize) && 0 <= i < picked.len()
            ==> #[trigger] comes_before(keys, picked[i] as int, x)
}

/// The indices of the `max` items with the smallest keys, sorted by key, ties
/// kept in index order: what sorting the items by key with a stable sort and
/// then truncating them to `max` keeps.
pub fn select_nearest(keys: &Vec<i32>, max: usize) -> (picked: Vec<usize>)
    ensures
        is_nearest(keys@, picked@, if keys@.len() < max { keys@.len() as int } else { max as int }),
{
    let n = keys.len();
    let count = if n < max { n } else { max };
    let mut picked: Vec<usize> = Vec::new();
    let mut taken: Vec<bool> = Vec::new();
    let mut t: usize = 0;
    while t < n
        invariant
            t <= n,
            n == keys@.len(),
            taken@.len() == t,
            forall|x: int| 0 <= x < t ==> !#[trigger] taken@[x],
        decreases n - t,
    {
        taken.push(false);
        t = t + 1;
    }
    while picked.len() < count
        invariant
            n == keys@.len(),
            count <= n,
            picked@.len() <= count,
            taken@.len() == n,
            forall|x: int| 0 <= x < n ==> (#[trigger] taken@[x] <==> picked@.contains(x as usize)),
            forall|i: int| 0 <= i < picked@.len() ==> #[trigger] picked@[i] < n,
            forall|i: int, j: int|
                0 <= i < j < picked@.len() ==> comes_before(
                    keys@,
                    #[trigger] picked@[i] as int,
                    #[trigger] picked@[j] as int,
                ),
            forall|x: int, i: int|
                0 <= x < n && !picked@.contains(x as usize) && 0 <= i < picked@.len()
                    ==> #[trigger] comes_before(keys@, picked@[i] as int, x),
        decreases count - picked@.len(),
    {
        // some item is still free, since fewer than `n` are picked
        proof {
            lemma_some_free(picked@, n);
            let y = choose|y: int| 0 <= y < n && !#[trigger] picked@.contains(y as usize);
            assert(!taken@[y]);
        }
        let mut best: usize = n;
        let mut x: usize = 0;
        while x < n
            invariant
                n == keys@.len(),
                x <= n,
                taken@.len() == n,
                best == n || (best < x && !taken@[best as int]),
                forall|y: int|
                    0 <= y < x && !taken@[y] ==> best < n && (best == y || comes_before(
                        keys@,
                        best as int,
                        y,
                    )),
                exists|y: int| 0 <= y < n && !#[trigger] taken@[y],
                best == n ==> forall|y: int| 0 <= y < x ==> #[trigger] taken@[y],
            decreases n - x,
        {
            if !taken[x] {
                if best == n || keys[x] < keys[best] {
                    best = x;
                }
            }
            x = x + 1;
        }
        proof {
            if best == n {
                let y = choose|y: int| 0 <= y < n && !#[trigger] taken@[y];
                assert(taken@[y]);
            }
        }
        let ghost old_picked = picked@;
        picked.push(best);
        taken.set(best, true);
        proof {
            assert forall|y: int| 0 <= y < n implies (#[trigger] taken@[y] <==> picked@.contains(
                y as usize,
            )) by {
                if y == best as int {
                    assert(picked@[old_picked.len() as int] == best);
                } else {
                    if picked@.contains(y as usize) {
                        let k = choose|k: int| 0 <= k < picked@.len() && picked@[k] == y as usize;
                        assert(k < old_picked.len());
                        assert(old_picked[k] == y as usize);
                    }
                    if old_picked.contains(y as usize) {
                        let k = choose|k: int| 0 <= k < old_picked.len() && old_picked[k] == y as usize;
                        assert(picked@[k] == y as usize);
                    }
                }
            }
            assert forall|x: int, i: int|
                0 <= x < n && !picked@.contains(x as usize) && 0 <= i < picked@.len()
                implies #[trigger] comes_before(keys@, picked@[i] as int, x) by {
                if i < old_picked.len() {
                    assert(picked@[i] == old_picked[i]);
                    if old_picked.contains(x as usize) {
                        let k = choose|k: int| 0 <= k < old_picked.len() && old_picked[k] == x as usize;
                        assert(picked@[k] == x as usize);
                    }
                } else {
                    assert(!taken@[x]);
                }
            }
        }
    }
    picked
}

/// Fewer picked items than items leave one free.
proof fn lemma_some_free(picked: Seq<usize>, n: usize)
    requires
        picked.len() < n,
        forall|i: int| 0 <= i < picked.len() ==> #[trigger] picked[i] < n,
    ensures
        exists|y: int| 0 <= y < n && !#[trigger] picked.contains(y as usize),
{
    let s = picked.to_set();
    let full = Set::new(|y: usize| y < n);
    picked.lemma_cardinality_of_set();
    if forall|y: int| 0 <= y < n ==> #[trigger] picked.contains(y as usize) {
        assert(full.subset_of(s)) by {
            assert forall|y: usize| full.contains(y) implies s.contains(y) by {
                assert(picked.contains(y as usize));
            }
        }
        lemma_full_len(n);
        vstd::set_lib::lemma_len_subset(full, s);
        assert(false);
    }
}

/// The set of indices below `n` has `n` elements.
proof fn lemma_full_len(n: usize)
    ensures
        Set::new(|y: usize| y < n).len() == n,
        Set::new(|y: usize| y < n).finite(),
    decreases n,
{
    let full = Set::new(|y: usize| y < n);
    if n == 0 {
        assert(full =~= Set::<usize>::empty());
    } else {
        let smaller = Set::new(|y: usize| y < (n - 1) as usize);
        lemma_full_len((n - 1) as usize);
        assert(full =~= smaller.insert((n - 1) as usize));
    }
}

/// How the camera height follows the player in a tick.
#[derive(Clone, Copy, Debug, PartialEq, Eq)]
pub enum CameraStance {
    /// A first-person camera while the player rolls: lowered.
    Rolling,
    /// A first-person camera while the player runs on the ground: bobbing.
    Running,
    /// A third-person camera while the player aims: raised.
    Aiming,
    /// Eye height otherwise.
    Standing,
}

/// The camera stance for a first-person (`first_person`) or third-person
/// camera, given what the player does.
pub fn camera_stance(
    first_person: bool,
    rolling: bool,
    running: bool,
    on_ground: Option<bool>,
    aiming: bool,
) -> (s: CameraStance)
    ensures
        s == if first_person {
            if rolling {
                CameraStance::Rolling
            } else if running && on_ground == Some(true) {
                CameraStance::Running
            } else {
                CameraStance::Standing
            }
        } else if aiming {
            CameraStance::Aiming
        } else {
            CameraStance::Standing
        },
{
    if first_person {
        if rolling {
            CameraStance::Rolling
        } else if running && match on_ground {
            Some(g) => g,
            None => false,
        } {
            CameraStance::Running
        } else {
            CameraStance::Standing
        }
    } else if aiming {
        CameraStance::Aiming
    } else {
        CameraStance::Standing
    }
}

/// The kinds of input event that reach the scene.
#[derive(Clone, Copy, Debug, PartialEq, Eq)]
pub enum InputKind {
    /// The window was resized.
    Resize,
    /// The cursor panned.
    CursorPan,
    /// The view was zoomed.
    Zoom,
    /// An analog input moved the camera horizontally.
    AnalogCameraX,
    /// An analog input moved the camera vertically.
    AnalogCameraY,
    /// Another analog game input.
    AnalogOther,
    /// Any other event.
    Other,
}

/// What the scene does with an input event.
#[derive(Clone, Copy, Debug, PartialEq, Eq)]
pub enum InputAction {
    /// Change the camera's aspect ratio to the window's.
    SetAspectRatio,
    /// Rotate the camera by the pan.
    RotateCamera,
    /// Zoom the camera.
    ZoomCamera,
    /// Record the horizontal camera input.
    SetCameraInputX,
    /// Record the vertical camera input.
    SetCameraInputY,
    /// Leave the event to others.
    Ignore,
}

/// The action that an input event calls for; the scene handles the event
/// exactly when the action is not `Ignore`.
pub fn input_action(kind: InputKind) -> (a: InputAction)
    ensures
        a == match kind {
            InputKind::Resize => InputAction::SetAspectRatio,
            InputKind::CursorPan => InputAction::RotateCamera,
            InputKind::Zoom => InputAction::ZoomCamera,
            InputKind::AnalogCameraX => InputAction::SetCameraInputX,
            InputKind::AnalogCameraY => InputAction::SetCameraInputY,
            InputKind::AnalogOther => InputAction::Ignore,
            InputKind::Other => InputAction::Ignore,
        },
{
    match kind {
        InputKind::Resize => InputAction::SetAspectRatio,
        InputKind::CursorPan => InputAction::RotateCamera,
        InputKind::Zoom => InputAction::ZoomCamera,
        InputKind::AnalogCameraX => InputAction::SetCameraInputX,
        InputKind::AnalogCameraY => InputAction::SetCameraInputY,
        InputKind::AnalogOther => InputAction::Ignore,
        InputKind::Other => InputAction::Ignore,
    }
}

/// The shadow-matrix slots that the scene's constant buffer is made with.
pub const SHADOW_MAT_SLOTS: usize = MAX_LIGHT_COUNT * 6 + 2;

/// The shadow matrices for `lights` point lights: the sun's and the moon's,
/// four unused slots that fill the directed lights' cube up to six, and then
/// one matrix for each of the six cube faces of every point light.
pub fn shadow_mat_count(lights: usize) -> (n: usize)
    requires
        lights < usize::MAX / 6,
    ensures
        n == NUM_DIRECTED_LIGHTS + (6 - NUM_DIRECTED_LIGHTS) + 6 * lights,
        n == 6 * (lights + 1),
{
    NUM_DIRECTED_LIGHTS + (6 - NUM_DIRECTED_LIGHTS) + 6 * lights
}

/// Whether the shadow matrices of `lights` point lights fit in the slots that
/// the constant buffer is made with.
pub fn shadow_mats_fit(lights: usize) -> (fits: bool)
    requires
        lights < usize::MAX / 6,
    ensures
        fits == (6 * (lights + 1) <= SHADOW_MAT_SLOTS),
{
    shadow_mat_count(lights) <= SHADOW_MAT_SLOTS
}

/// The shadow matrices fit exactly when there are at most 31 point lights:
/// with the full `MAX_LIGHT_COUNT` lights they overrun the buffer by four.
pub proof fn lemma_shadow_mats_overrun(lights: nat)
    ensures
        6 * (lights + 1) <= SHADOW_MAT_SLOTS <==> lights <= 31,
        6 * (MAX_LIGHT_COUNT + 1) == SHADOW_MAT_SLOTS + 4,
{
}

} // verus!
