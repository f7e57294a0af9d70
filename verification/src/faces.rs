//! Font face selection for styled runs: which loaded face a bold or italic
//! run draws with, which style axes must be synthesized when a face is
//! missing, and the painter's tiers that batches are drawn in.

use vstd::prelude::*;

verus! {

/// One of the four faces of a font family.
#[derive(Clone, Copy, Debug, PartialEq, Eq, Hash, Structural)]
pub enum FaceSlot {
    Regular,
    Bold,
    Italic,
    BoldItalic,
}

/// Which faces of a font family are loaded.
#[derive(Clone, Copy, Debug, PartialEq, Eq, Default, Structural)]
pub struct LoadedFaces {
    pub regular: bool,
    pub bold: bool,
    pub italic: bool,
    pub bold_italic: bool,
}

impl LoadedFaces {
    /// Whether `slot` is loaded.
    pub open spec fn has(self, slot: FaceSlot) -> bool {
        match slot {
            FaceSlot::Regular => self.regular,
            FaceSlot::Bold => self.bold,
            FaceSlot::Italic => self.italic,
            FaceSlot::BoldItalic => self.bold_italic,
        }
    }
}

/// The face a `(bold, italic)` request draws with: the matching face when
/// loaded, else the closest loaded one on the requested axis
/// (bold-italic, then bold, then italic, then regular); `None` when no
/// candidate is loaded.
pub open spec fn picked_face(faces: LoadedFaces, bold: bool, italic: bool) -> Option<FaceSlot> {
    if bold && italic {
        if faces.bold_italic {
            Some(FaceSlot::BoldItalic)
        } else if faces.bold {
            Some(FaceSlot::Bold)
        } else if faces.italic {
            Some(FaceSlot::Italic)
        } else if faces.regular {
            Some(FaceSlot::Regular)
        } else {
            None
        }
    } else if bold {
        if faces.bold {
            Some(FaceSlot::Bold)
        } else if faces.regular {
            Some(FaceSlot::Regular)
        } else {
            None
        }
    } else if italic {
        if faces.italic {
            Some(FaceSlot::Italic)
        } else if faces.regular {
            Some(FaceSlot::Regular)
        } else {
            None
        }
    } else if faces.regular {
        Some(FaceSlot::Regular)
    } else {
        None
    }
}

/// The face that matches a `(bold, italic)` request exactly.
pub open spec fn matching_face(bold: bool, italic: bool) -> FaceSlot {
    if bold && italic {
        FaceSlot::BoldItalic
    } else if bold {
        FaceSlot::Bold
    } else if italic {
        FaceSlot::Italic
    } else {
        FaceSlot::Regular
    }
}

/// Face `s` carries only style axes the `(bold, italic)` request asks for.
pub open spec fn face_within(s: FaceSlot, bold: bool, italic: bool) -> bool {
    match s {
        FaceSlot::Regular => true,
        FaceSlot::Bold => bold,
        FaceSlot::Italic => italic,
        FaceSlot::BoldItalic => bold && italic,
    }
}

/// Face choice: the face that matches the request is drawn with whenever it
/// is loaded; any face drawn with is loaded and carries no axis the request
/// does not ask for; a fallback is taken only when the matching face is
/// missing, and the plain regular face only when no loaded face carries a
/// requested axis; nothing is picked only when no loaded face fits.
pub proof fn lemma_picked_face_prefers_match(faces: LoadedFaces, bold: bool, italic: bool)
    ensures
        faces.has(matching_face(bold, italic)) ==> picked_face(faces, bold, italic) == Some(
            matching_face(bold, italic),
        ),
        picked_face(faces, bold, italic) matches Some(s) ==> faces.has(s) && face_within(s, bold, italic),
        picked_face(faces, bold, italic) matches Some(s) && s != matching_face(bold, italic) ==> !faces.has(
            matching_face(bold, italic),
        ),
        picked_face(faces, bold, italic) == Some(FaceSlot::Regular) ==> forall|s: FaceSlot|
            s != FaceSlot::Regular && face_within(s, bold, italic) ==> !faces.has(s),
        picked_face(faces, bold, italic) is None <==> forall|s: FaceSlot|
            face_within(s, bold, italic) ==> !faces.has(s),
{
    assert(face_within(FaceSlot::Regular, bold, italic));
    if let Some(s) = picked_face(faces, bold, italic) {
        assert(face_within(s, bold, italic) && faces.has(s));
    }
    if picked_face(faces, bold, italic) is None {
        assert forall|s: FaceSlot| face_within(s, bold, italic) implies !faces.has(s) by {
            match s {
                FaceSlot::Regular => {},
                FaceSlot::Bold => {},
                FaceSlot::Italic => {},
                FaceSlot::BoldItalic => {},
            }
        }
    }
    if picked_face(faces, bold, italic) == Some(FaceSlot::Regular) {
        assert forall|s: FaceSlot| s != FaceSlot::Regular && face_within(s, bold, italic) implies !faces.has(s) by {
            match s {
                FaceSlot::Regular => {},
                FaceSlot::Bold => {},
                FaceSlot::Italic => {},
                FaceSlot::BoldItalic => {},
            }
        }
    }
}

/// Resolves the face for a `(bold, italic)` request.
pub fn pick_face(faces: &LoadedFaces, bold: bool, italic: bool) -> (r: Option<FaceSlot>)
    ensures
        r == picked_face(*faces, bold, italic),
        r matches Some(s) ==> faces.has(s),
{
    if bold && italic {
        if faces.bold_italic {
            Some(FaceSlot::BoldItalic)
        } else if faces.bold {
            Some(FaceSlot::Bold)
        } else if faces.italic {
            Some(FaceSlot::Italic)
        } else if faces.regular {
            Some(FaceSlot::Regular)
        } else {
            None
        }
    } else if bold {
        if faces.bold {
            Some(FaceSlot::Bold)
        } else if faces.regular {
            Some(FaceSlot::Regular)
        } else {
            None
        }
    } else if italic {
        if faces.italic {
            Some(FaceSlot::Italic)
        } else if faces.regular {
            Some(FaceSlot::Regular)
        } else {
            None
        }
    } else if faces.regular {
        Some(FaceSlot::Regular)
    } else {
        None
    }
}

/// Whether a `(bold, italic)` request needs synthesis: weight when it asks
/// for bold, weight synthesis is on and no face carries bold (the
/// bold-italic or bold face for a bold-italic request, the bold face for a
/// bold one); style likewise for italic.
pub fn needs_synth(faces: &LoadedFaces, synth_weight: bool, synth_style: bool, bold: bool, italic: bool) -> (r: (bool, bool))
    ensures
        r.0 == (bold && synth_weight && if italic {
            !faces.bold_italic && !faces.bold
        } else {
            !faces.bold
        }),
        r.1 == (italic && synth_style && if bold {
            !faces.bold_italic && !faces.italic
        } else {
            !faces.italic
        }),
{
    let bold_synth = bold && synth_weight && if italic {
        !faces.bold_italic && !faces.bold
    } else {
        !faces.bold
    };
    let italic_synth = italic && synth_style && if bold {
        !faces.bold_italic && !faces.italic
    } else {
        !faces.italic
    };
    (bold_synth, italic_synth)
}

/// A run draws bold when its font weight is at least 600.
pub fn run_is_bold(font_weight: Option<u16>) -> (r: bool)
    ensures
        r == (font_weight matches Some(w) && w >= 600),
{
    match font_weight {
        Some(w) => w >= 600,
        None => false,
    }
}

/// The painter's tier a glyph batch belongs to: backgrounds below the
/// text, then the text, then what is drawn above it (carets, brackets).
#[derive(Clone, Copy, Debug, PartialEq, Eq, Structural)]
pub enum BatchTier {
    Below,
    Text,
    Above,
}

impl BatchTier {
    /// Drawing order of the tiers: lower draws first, further back.
    pub fn rank(self) -> (r: u8)
        ensures
            r == match self {
                BatchTier::Below => 0u8,
                BatchTier::Text => 1u8,
                BatchTier::Above => 2u8,
            },
    {
        match self {
            BatchTier::Below => 0,
            BatchTier::Text => 1,
            BatchTier::Above => 2,
        }
    }
}

} // verus!
