use crate::constant::{Constant, FuncObject};
use crate::josa::JosaMap;
use crate::shared::push_char;
use vstd::prelude::*;

verus! {

/// The number of the native print function.
pub const PRINT_NATIVE: u32 = 0;

/// The label of the print function's one parameter.
pub open spec fn print_label() -> Seq<char> {
    seq!['을']
}

/// The initial globals: the native print function in slot 0, taking one
/// argument labelled `을`.
pub fn get_builtin() -> (r: Vec<Option<Constant>>)
    ensures
        r@.len() == 1,
        r@[0] matches Some(Constant::Function { josa_map, func_object })
            && func_object == (FuncObject::NativeFunc { id: PRINT_NATIVE })
            && josa_map.labels() == seq![print_label()]
            && josa_map.slots() == seq![None::<Constant>],
{
    let mut label = String::new();
    push_char(&mut label, '을');
    let mut labels: Vec<String> = Vec::new();
    labels.push(label);
    let josa_map = JosaMap::new(&labels);
    proof {
        let names = labels@.map_values(|s: String| s@);
        assert(names == seq![print_label()]);
        assert(names.drop_last() == Seq::<Seq<char>>::empty());
        reveal_with_fuel(crate::josa::distinct_in_order, 2);
        assert(josa_map.labels() == seq![print_label()]);
        assert(josa_map.slots() =~= seq![None::<Constant>]);
    }
    let mut env: Vec<Option<Constant>> = Vec::new();
    env.push(Some(Constant::Function { josa_map, func_object: FuncObject::NativeFunc { id: PRINT_NATIVE } }));
    env
}

} // verus!
