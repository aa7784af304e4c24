use vstd::prelude::*;

verus! {

/// How one coordinate of the first key of a bigram compares with the same
/// coordinate of the second key.
pub enum Compared {
    /// The first key's coordinate is smaller.
    Less,
    /// The first key's coordinate is greater.
    Greater,
    /// Neither is smaller than the other.
    Neither,
}

/// Which penalties of the loss function a bigram incurs.
pub struct BigramShape {
    /// Both keys are typed by the same hand.
    pub same_hand: bool,
    /// Both keys are typed by the same finger.
    pub same_finger: bool,
    /// Two fingers of one hand roll outwards.
    pub out_roll: bool,
    /// Two neighbouring fingers of one hand jump two rows.
    pub big_y_jump: bool,
    /// Two fingers of one hand form a hill against the hand's shape.
    pub hill_shape: bool,
}

/// Fingers are numbered by hand: negative on the left hand, positive on the
/// right, zero for none.  Two keys share a hand when their fingers' product
/// is positive.
pub open spec fn same_hand(finger1: i8, finger2: i8) -> bool {
    finger1 * finger2 > 0
}

/// The penalties that a bigram incurs.  `x` and `y` compare the first
/// key's coordinates with the second key's, and `rows_two_apart` says that
/// the keys' rows lie exactly two apart.  Only bigrams typed by two
/// different fingers of one hand roll, jump or form hills.  On the right
/// hand an outward roll moves to a greater x and a hill moves the same way
/// in x and in y; on the left hand an outward roll moves to a smaller x and
/// a hill moves opposite ways in x and in y.
pub open spec fn shape_of(finger1: i8, finger2: i8, x: Compared, y: Compared, rows_two_apart: bool) -> BigramShape {
    let hand = same_hand(finger1, finger2);
    let two_fingers = hand && finger1 != finger2;
    BigramShape {
        same_hand: hand,
        same_finger: hand && finger1 == finger2,
        out_roll: two_fingers && ((finger1 > 0 && x is Less) || (finger1 < 0 && x is Greater)),
        big_y_jump: two_fingers && (finger1 - finger2 == 1 || finger2 - finger1 == 1) && rows_two_apart,
        hill_shape: two_fingers && if finger1 < 0 {
            (x is Greater && y is Less) || (x is Less && y is Greater)
        } else {
            (x is Greater && y is Greater) || (x is Less && y is Less)
        },
    }
}

/// The penalties, read off the fingers and the comparisons directly: two
/// keys share a hand when the product of their fingers is positive; one
/// finger of one hand types a same-finger bigram; two fingers of one hand
/// whose numbers differ by one jump when the rows lie two apart, whichever
/// of them comes first; the right hand rolls outwards to a greater x and
/// the left to a smaller x; and on the right hand a hill moves the same way
/// in x and in y, on the left hand opposite ways.
pub proof fn lemma_shape_reads_the_fingers(finger1: i8, finger2: i8, x: Compared, y: Compared, rows_two_apart: bool)
    ensures
        ({
            let s = shape_of(finger1, finger2, x, y, rows_two_apart);
            &&& s.same_hand <==> finger1 * finger2 > 0
            &&& s.same_finger <==> finger1 * finger2 > 0 && finger1 == finger2
            &&& s.big_y_jump <==> finger1 * finger2 > 0 && (finger1 - finger2) * (finger1 - finger2) == 1
                && rows_two_apart
            &&& s.out_roll <==> finger1 * finger2 > 0 && finger1 != finger2 && if finger1 > 0 {
                x is Less
            } else {
                x is Greater
            }
            &&& s.hill_shape <==> finger1 * finger2 > 0 && finger1 != finger2 && !(x is Neither) && !(y is Neither)
                && ((x == y) <==> finger1 > 0)
        }),
        shape_of(finger1, finger2, x, y, rows_two_apart).big_y_jump == shape_of(
            finger2,
            finger1,
            y,
            x,
            rows_two_apart,
        ).big_y_jump,
        shape_of(finger1, finger2, x, y, rows_two_apart).same_hand == shape_of(
            finger2,
            finger1,
            y,
            x,
            rows_two_apart,
        ).same_hand,
{
    assert(finger1 * finger2 == finger2 * finger1) by (nonlinear_arith);
    assert((finger1 - finger2) * (finger1 - finger2) == 1 <==> (finger1 - finger2 == 1 || finger2 - finger1 == 1))
        by (nonlinear_arith);
    assert(finger1 * finger2 > 0 ==> finger1 != 0 && (finger1 > 0 <==> finger2 > 0)) by (nonlinear_arith);
}

/// Sorts a bigram into the penalties it incurs, as the loss function reads
/// them: outward rolls, big row jumps of neighbouring fingers and hills for
/// two fingers of one hand, and same-finger bigrams.
pub fn bigram_shape(finger1: i8, finger2: i8, x: Compared, y: Compared, rows_two_apart: bool) -> (shape: BigramShape)
    ensures
        shape == shape_of(finger1, finger2, x, y, rows_two_apart),
        shape.same_hand <==> finger1 * finger2 > 0,
        shape.same_finger <==> finger1 * finger2 > 0 && finger1 == finger2,
        shape.big_y_jump <==> finger1 * finger2 > 0 && (finger1 - finger2) * (finger1 - finger2) == 1
            && rows_two_apart,
        shape.out_roll <==> finger1 * finger2 > 0 && finger1 != finger2 && if finger1 > 0 {
            x is Less
        } else {
            x is Greater
        },
        shape.hill_shape <==> finger1 * finger2 > 0 && finger1 != finger2 && !(x is Neither) && !(y is Neither)
            && ((x == y) <==> finger1 > 0),
{
    proof {
        lemma_shape_reads_the_fingers(finger1, finger2, x, y, rows_two_apart);
    }
    assert(-16384 <= finger1 * finger2 <= 16384) by (nonlinear_arith)
        requires
            -128 <= finger1 <= 127,
            -128 <= finger2 <= 127,
    ;
    let product: i16 = (finger1 as i16) * (finger2 as i16);
    let hand = product > 0;
    let mut shape = BigramShape {
        same_hand: hand,
        same_finger: false,
        out_roll: false,
        big_y_jump: false,
        hill_shape: false,
    };
    if hand {
        if finger1 != finger2 {
            // check for outward rolls
            if finger1 > 0 && matches!(x, Compared::Less) || finger1 < 0 && matches!(x, Compared::Greater) {
                shape.out_roll = true;
            }
            // check for neighbouring fingers and jumps over two rows
            let gap: i16 = (finger1 as i16) - (finger2 as i16);
            if (gap == 1 || gap == -1) && rows_two_apart {
                shape.big_y_jump = true;
            }
            // check for hills
            if finger1 < 0 {
                if matches!(x, Compared::Greater) && matches!(y, Compared::Less) {
                    shape.hill_shape = true;
                } else if matches!(x, Compared::Less) && matches!(y, Compared::Greater) {
                    shape.hill_shape = true;
                }
            } else {
                if matches!(x, Compared::Greater) && matches!(y, Compared::Greater) {
                    shape.hill_shape = true;
                } else if matches!(x, Compared::Less) && matches!(y, Compared::Less) {
                    shape.hill_shape = true;
                }
            }
        } else {
            shape.same_finger = true;
        }
    }
    shape
}

} // verus!
