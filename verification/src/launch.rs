use vstd::prelude::*;
use vstd::string::StringExecFns;
use crate::mods::{ModItem, item_views, enabled_paths_of, push_enabled_paths};
use crate::named_paths::{Entry, NamedPaths};
use crate::text::texts;

verus! {

/// What to start: the source port's program and its arguments.
pub struct LaunchPlan {
    pub program: String,
    pub args: Vec<String>,
}

/// The flag that names the IWAD.
pub open spec fn iwad_flag() -> Seq<char> {
    seq!['-', 'i', 'w', 'a', 'd']
}

/// The flag that introduces the mod and map files.
pub open spec fn file_flag() -> Seq<char> {
    seq!['-', 'f', 'i', 'l', 'e']
}

/// The path of the entry that a dropdown index selects: none for a negative
/// index or one past the end.
pub open spec fn selected(entries: Seq<Entry>, index: int) -> Option<Seq<char>> {
    if 0 <= index < entries.len() {
        Some(entries[index].1)
    } else {
        None
    }
}

/// The arguments of a launch: `-iwad` and the IWAD's path when one is
/// selected, then `-file` and the files when there are any.
pub open spec fn launch_args(iwad: Option<Seq<char>>, files: Seq<Seq<char>>) -> Seq<Seq<char>> {
    let head = match iwad {
        Some(path) => seq![iwad_flag(), path],
        None => Seq::empty(),
    };
    if files.len() == 0 {
        head
    } else {
        head + seq![file_flag()] + files
    }
}

/// The path selected at `index`, if any.
fn selected_path(list: &NamedPaths, index: i32) -> (path: Option<String>)
    ensures
        match path {
            Some(p) => selected(list@, index as int) == Some(p@),
            None => selected(list@, index as int) is None,
        },
{
    if index < 0 {
        return None;
    }
    match list.path_at(index as usize) {
        Some(p) => Some(p.clone()),
        None => None,
    }
}

/// Plans a launch from the selected source port, the selected IWAD and the
/// mods and maps switched on. Without a selected source port there is
/// nothing to launch.
pub fn plan_launch(
    ports: &NamedPaths,
    port_index: i32,
    iwads: &NamedPaths,
    iwad_index: i32,
    mods: &[ModItem],
    maps: &[ModItem],
) -> (plan: Option<LaunchPlan>)
    ensures
        match plan {
            Some(plan) => {
                &&& selected(ports@, port_index as int) == Some(plan.program@)
                &&& texts(plan.args@) == launch_args(
                    selected(iwads@, iwad_index as int),
                    enabled_paths_of(item_views(mods@)) + enabled_paths_of(item_views(maps@)),
                )
            },
            None => selected(ports@, port_index as int) is None,
        },
{
    let program = match selected_path(ports, port_index) {
        Some(p) => p,
        None => return None,
    };
    let iwad = selected_path(iwads, iwad_index);
    let mut files: Vec<String> = Vec::new();
    assert(texts(files@) =~= Seq::<Seq<char>>::empty());
    push_enabled_paths(mods, &mut files);
    push_enabled_paths(maps, &mut files);
    assert(texts(files@) =~= enabled_paths_of(item_views(mods@)) + enabled_paths_of(item_views(maps@)));
    let mut args: Vec<String> = Vec::new();
    proof {
        reveal_strlit("-iwad");
        reveal_strlit("-file");
    }
    match iwad {
        Some(path) => {
            let flag = String::from_str("-iwad");
            assert(flag@ =~= iwad_flag());
            args.push(flag);
            args.push(path);
            assert(texts(args@) =~= seq![iwad_flag(), path@]);
        },
        None => {
            assert(texts(args@) =~= Seq::<Seq<char>>::empty());
        },
    }
    let ghost head = texts(args@);
    if files.len() > 0 {
        let flag = String::from_str("-file");
        assert(flag@ =~= file_flag());
        args.push(flag);
        assert(texts(args@) =~= head + seq![file_flag()] + texts(files@).take(0));
        let mut k: usize = 0;
        while k < files.len()
            invariant
                k <= files.len(),
                texts(args@) == head + seq![file_flag()] + texts(files@).take(k as int),
            decreases files.len() - k,
        {
            let ghost before = texts(args@);
            let f = files[k].clone();
            args.push(f);
            assert(texts(args@) =~= before.push(f@));
            assert(texts(files@).take(k + 1) =~= texts(files@).take(k as int).push(f@));
            k += 1;
        }
        assert(texts(files@).take(k as int) =~= texts(files@));
    }
    assert(texts(args@) =~= launch_args(
        selected(iwads@, iwad_index as int),
        enabled_paths_of(item_views(mods@)) + enabled_paths_of(item_views(maps@)),
    ));
    Some(LaunchPlan { program, args })
}


/// The shape of a launch's arguments: a selected IWAD always comes first, as
/// `-iwad` and its path, whether or not files follow; the files, when there
/// are any, come last, in order, after `-file`; nothing else is passed.
pub proof fn lemma_launch_args_shape(iwad: Option<Seq<char>>, files: Seq<Seq<char>>)
    ensures
        launch_args(iwad, files).len() == (if iwad is Some { 2int } else { 0int }) + (if files.len() > 0 {
            files.len() + 1int
        } else {
            0int
        }),
        iwad matches Some(path) ==> {
            &&& launch_args(iwad, files)[0] == seq!['-', 'i', 'w', 'a', 'd']
            &&& launch_args(iwad, files)[1] == path
        },
        iwad is Some && files.len() == 0 ==> launch_args(iwad, files) == seq![seq!['-', 'i', 'w', 'a', 'd'], iwad->0],
        iwad is None && files.len() == 0 ==> launch_args(iwad, files) == Seq::<Seq<char>>::empty(),
        files.len() > 0 ==> {
            let args = launch_args(iwad, files);
            let start = args.len() - files.len();
            &&& args[start - 1] == seq!['-', 'f', 'i', 'l', 'e']
            &&& args.subrange(start, args.len() as int) == files
        },
{
    let args = launch_args(iwad, files);
    if files.len() > 0 {
        let start = args.len() - files.len();
        assert(args.subrange(start, args.len() as int) =~= files);
    }
    if iwad is Some && files.len() == 0 {
        assert(args =~= seq![seq!['-', 'i', 'w', 'a', 'd'], iwad->0]);
    }
    if iwad is None && files.len() == 0 {
        assert(args =~= Seq::<Seq<char>>::empty());
    }
}

/// A dropdown index selects the path of the entry at that index, and nothing
/// for an index outside the list.
pub proof fn lemma_selected(entries: Seq<Entry>, index: int)
    ensures
        selected(entries, index) is Some <==> 0 <= index < entries.len(),
        0 <= index < entries.len() ==> selected(entries, index) == Some(entries[index].1),
{
}

} // verus!
